use rand::{Rng, SeedableRng};
use rand_chacha::ChaCha8Rng;
use rand_distr::{Distribution, Normal};
use ruffle::weighting::coupling as lib;
use ruffle::{
    Anchor, ChannelConfig, ChannelId, Direction, Double, OrderedMap, Score, UnorderedPair,
};
use std::collections::{BTreeMap, HashSet};
use std::hash::Hash;

fn d(x: f64) -> Double {
    Double::from_bits(x.to_bits())
}

fn f(x: Double) -> f64 {
    f64::from_bits(x.to_bits())
}

fn close(a: f64, b: f64, eps: f64) {
    assert!((a - b).abs() <= eps, "{a} is not within {eps} of {b}");
}

/// A summary seeded from machine numbers.
struct MeanVar;

impl MeanVar {
    fn from_prior(mean: f64, variance: f64, count: f64) -> ruffle::MeanVar {
        ruffle::MeanVar::from_prior(d(mean), d(variance), d(count))
    }
}

/// A pair baseline in machine numbers.
#[derive(Clone, Copy)]
struct PairBaseline {
    redundancy: ruffle::MeanVar,
    refreshes: f64,
}

/// The knobs in machine numbers.
#[derive(Clone, Copy)]
struct CouplingConfig {
    enabled: bool,
    discount_cap: f64,
    shrink_to_identity: f64,
    min_overlap: usize,
    min_reliability: f64,
    min_refreshes: f64,
}

impl Default for CouplingConfig {
    fn default() -> Self {
        let c = ruffle::CouplingConfig::default();
        CouplingConfig {
            enabled: c.enabled,
            discount_cap: f(c.discount_cap),
            shrink_to_identity: f(c.shrink_to_identity),
            min_overlap: c.min_overlap,
            min_reliability: f(c.min_reliability),
            min_refreshes: f(c.min_refreshes),
        }
    }
}

impl CouplingConfig {
    fn soft(&self) -> ruffle::CouplingConfig {
        let mut c = ruffle::CouplingConfig::default();
        c.enabled = self.enabled;
        c.discount_cap = d(self.discount_cap);
        c.shrink_to_identity = d(self.shrink_to_identity);
        c.min_overlap = self.min_overlap;
        c.min_reliability = d(self.min_reliability);
        c.min_refreshes = d(self.min_refreshes);
        c
    }
}

struct CoupledWeights {
    weights: BTreeMap<String, f64>,
    effective_channels: f64,
}

fn coupled_weights(
    g: &BTreeMap<String, f64>,
    redundancy: &BTreeMap<UnorderedPair<String>, PairBaseline>,
    keys: &[String],
    cfg: &CouplingConfig,
) -> CoupledWeights {
    let mut soft_g = OrderedMap::new();
    for (k, x) in g {
        soft_g.insert(k.clone(), d(*x));
    }
    let mut soft_pairs = OrderedMap::new();
    for (k, x) in redundancy {
        soft_pairs.insert(
            k.clone(),
            lib::PairBaseline {
                redundancy: x.redundancy,
                refreshes: d(x.refreshes),
            },
        );
    }
    let out = lib::coupled_weights(&soft_g, &soft_pairs, keys, &cfg.soft());
    let w = &out.weights;
    CoupledWeights {
        weights: (0..w.len())
            .map(|i| (w.key_at(i).clone(), f(*w.value_at(i))))
            .collect(),
        effective_channels: f(out.effective_channels),
    }
}

struct Observation {
    correlation: f64,
    n_both: usize,
}

fn sin(x: Double) -> Double {
    d(libm::sin(f(x)))
}

fn anchor_correlations(
    anchor: &Anchor,
    cfg: &CouplingConfig,
) -> BTreeMap<UnorderedPair<String>, Observation> {
    let out = lib::anchor_correlations(anchor, &cfg.soft(), &sin);
    (0..out.len())
        .map(|i| {
            let o = out.value_at(i);
            let observation = Observation {
                correlation: f(o.correlation),
                n_both: o.n_both,
            };
            (out.key_at(i).clone(), observation)
        })
        .collect()
}

fn midranks(xs: &[f64]) -> Vec<f64> {
    let xs: Vec<Double> = xs.iter().map(|x| d(*x)).collect();
    let ranks = ruffle::numeric::midranks(&xs);
    ranks.into_iter().map(f).collect()
}

fn pearson(xs: &[f64], ys: &[f64]) -> Option<f64> {
    let xs: Vec<Double> = xs.iter().map(|x| d(*x)).collect();
    let ys: Vec<Double> = ys.iter().map(|x| d(*x)).collect();
    lib::pearson(&xs, &ys).map(f)
}

#[derive(Clone, Copy, Debug, PartialEq)]
struct Diagnostics {
    confidence: f64,
    conflict: f64,
}

fn diagnostics<Id: Hash + Eq + Clone>(top_sets: &[(String, Vec<Id>)]) -> Diagnostics {
    let out = lib::diagnostics(top_sets);
    Diagnostics {
        confidence: f(out.confidence),
        conflict: f(out.conflict),
    }
}

/// A caller-side newtype: the only way a bare number becomes a [`Score`].
struct Val(f64);
impl Score for Val {
    fn value(&self) -> Double {
        d(self.0)
    }
}

fn key(s: &str) -> String {
    s.to_string()
}

fn channel(name: &str) -> ChannelConfig {
    ChannelConfig::new(ChannelId::new(name, "tag"), Direction::HigherIsBetter, None)
}

/// A `g` map from `(name, value)` pairs.
fn gmap(entries: &[(&str, f64)]) -> BTreeMap<String, f64> {
    entries.iter().map(|(k, v)| (key(k), *v)).collect()
}

/// A reliable redundancy baseline with a given mean and reliability count, backed by
/// enough refreshes to clear the between-refresh stability threshold.
fn redundancy(mean: f64, count: f64) -> PairBaseline {
    PairBaseline {
        redundancy: MeanVar::from_prior(mean, 0.0, count),
        refreshes: 2.0,
    }
}

// -- anchor_correlations -------------------------------------------------------

#[test]
fn recovers_injected_redundancy_on_unselected_sample() {
    // Two channels S_c = a·R + λ·Z + ε_c on a random (unselected) sample. The true
    // within-bulk correlation is λ²/(λ²+1); the collider is absent, so the
    // both-scored correlation recovers it to ~2 digits. Checked for two loadings.
    for (lambda, target) in [(1.0_f64, 0.5_f64), (2.0, 0.8)] {
        let mut rng = ChaCha8Rng::seed_from_u64(0xC0FFEE + lambda as u64);
        let normal = Normal::new(0.0, 1.0).unwrap();
        let a = 3.0;
        let p = 1e-3; // rare relevance, so the sample is bulk-dominated
        let n = 20_000usize;

        let mut sa = Vec::with_capacity(n);
        let mut sb = Vec::with_capacity(n);
        for _ in 0..n {
            let relevant = if rng.gen_range(0.0_f64..1.0) < p {
                1.0
            } else {
                0.0
            };
            let z = normal.sample(&mut rng);
            let ea = normal.sample(&mut rng);
            let eb = normal.sample(&mut rng);
            sa.push(a * relevant + lambda * z + ea);
            sb.push(a * relevant + lambda * z + eb);
        }

        let cands: Vec<usize> = (0..n).collect();
        let ca = channel("a");
        let cb = channel("b");
        let anchor = Anchor::build(&cands, &[&ca, &cb], |id, k| {
            let v = if k == "a" { sa[*id] } else { sb[*id] };
            Some(Val(v))
        });

        let corr = anchor_correlations(&anchor, &CouplingConfig::default());
        let obs = corr.get(&UnorderedPair::new(key("a"), key("b"))).unwrap();
        assert_eq!(obs.n_both, n);
        close(obs.correlation, target, 0.03);
    }
}

#[test]
fn redundancy_is_invariant_to_monotone_rescaling() {
    // The design premise is that scores are meaningful only up to an
    // unknown monotone calibration, so the redundancy estimate must not move when a
    // channel's scores are monotonically rescaled. The rank-based estimator is
    // exactly invariant (identical ranks -> identical correlation); a linear
    // correlation on raw scores would attenuate under the exp warp below.
    let mut rng = ChaCha8Rng::seed_from_u64(0xBEEF);
    let normal = Normal::new(0.0, 1.0).unwrap();
    let n = 5_000usize;
    let mut sa = Vec::with_capacity(n);
    let mut sb = Vec::with_capacity(n);
    for _ in 0..n {
        let z = normal.sample(&mut rng);
        sa.push(z + normal.sample(&mut rng));
        sb.push(z + normal.sample(&mut rng));
    }

    let cands: Vec<usize> = (0..n).collect();
    let ca = channel("a");
    let cb = channel("b");
    let raw = Anchor::build(&cands, &[&ca, &cb], |id, k| {
        Some(Val(if k == "a" { sa[*id] } else { sb[*id] }))
    });
    // The same channels with b's scores warped by the strictly monotone exp.
    let warped = Anchor::build(&cands, &[&ca, &cb], |id, k| {
        Some(Val(if k == "a" { sa[*id] } else { sb[*id].exp() }))
    });

    let cfg = CouplingConfig::default();
    let pair = UnorderedPair::new(key("a"), key("b"));
    let r_raw = anchor_correlations(&raw, &cfg)[&pair].correlation;
    let r_warped = anchor_correlations(&warped, &cfg)[&pair].correlation;
    assert!(
        r_raw > 0.3,
        "the shared nuisance must register, got {r_raw}"
    );
    close(r_raw, r_warped, 1e-12);
}

#[test]
fn midranks_average_ties() {
    // [10, 20, 20, 30] -> ranks [1, 2.5, 2.5, 4]; order of appearance irrelevant.
    let r = midranks(&[20.0, 10.0, 30.0, 20.0]);
    assert_eq!(r, vec![2.5, 1.0, 4.0, 2.5]);
    // All tied: everyone at the midpoint (n+1)/2.
    assert_eq!(midranks(&[7.0, 7.0, 7.0]), vec![2.0, 2.0, 2.0]);
}

#[test]
fn both_scored_restriction_counts_only_shared_items() {
    // Channel b is absent (facet does not apply) on a known subset; the correlation
    // is computed over only the both-scored items and n_both reflects that.
    let mut rng = ChaCha8Rng::seed_from_u64(7);
    let normal = Normal::new(0.0, 1.0).unwrap();
    let n = 200usize;
    let absent: HashSet<usize> = (0..n).filter(|i| i % 5 == 0).collect(); // 40 absent
    let expected_both = n - absent.len();

    let mut sa = Vec::with_capacity(n);
    let mut sb = Vec::with_capacity(n);
    for _ in 0..n {
        let z = normal.sample(&mut rng);
        sa.push(z + normal.sample(&mut rng) * 0.1);
        sb.push(z + normal.sample(&mut rng) * 0.1);
    }

    let cands: Vec<usize> = (0..n).collect();
    let ca = channel("a");
    let cb = channel("b");
    let anchor = Anchor::build(&cands, &[&ca, &cb], |id, k| {
        if k == "b" && absent.contains(id) {
            None
        } else if k == "a" {
            Some(Val(sa[*id]))
        } else {
            Some(Val(sb[*id]))
        }
    });

    let corr = anchor_correlations(&anchor, &CouplingConfig::default());
    let obs = corr.get(&UnorderedPair::new(key("a"), key("b"))).unwrap();
    assert_eq!(obs.n_both, expected_both);
    assert!(obs.correlation.is_finite() && obs.correlation > 0.5);
}

#[test]
fn thin_overlap_is_omitted() {
    // Only three both-scored items, below the default min_overlap of 30.
    let n = 100usize;
    let present: HashSet<usize> = [0usize, 1, 2].into_iter().collect();
    let cands: Vec<usize> = (0..n).collect();
    let ca = channel("a");
    let cb = channel("b");
    let anchor = Anchor::build(&cands, &[&ca, &cb], |id, k| {
        if k == "b" && !present.contains(id) {
            None
        } else {
            Some(Val(*id as f64))
        }
    });
    let corr = anchor_correlations(&anchor, &CouplingConfig::default());
    assert!(corr.is_empty());
}

#[test]
fn zero_variance_pair_is_omitted() {
    // Channel b is constant over the overlap: its variance is zero, so the
    // correlation is undefined and the pair is dropped.
    let n = 100usize;
    let cands: Vec<usize> = (0..n).collect();
    let ca = channel("a");
    let cb = channel("b");
    let anchor = Anchor::build(&cands, &[&ca, &cb], |id, k| {
        if k == "a" {
            Some(Val(*id as f64))
        } else {
            Some(Val(1.0)) // constant
        }
    });
    let corr = anchor_correlations(&anchor, &CouplingConfig::default());
    assert!(corr.is_empty());
}

#[test]
fn overlap_exactly_at_min_is_kept() {
    // The thin-overlap drop is `n_both < min_overlap`: a pair whose overlap is
    // EXACTLY at the floor is reliable enough to keep (boundary `<`, not `<=`). With
    // `<=` the pair would be dropped at the threshold.
    let n = 30usize; // == default min_overlap
    let cands: Vec<usize> = (0..n).collect();
    let ca = channel("a");
    let cb = channel("b");
    let anchor = Anchor::build(&cands, &[&ca, &cb], |id, k| {
        // Both channels score every item with co-varying values, so the correlation
        // is defined (non-zero variance in each) and the only threshold in play is overlap.
        let v = if k == "a" {
            *id as f64
        } else {
            *id as f64 * 2.0 + 1.0
        };
        Some(Val(v))
    });
    let cfg = CouplingConfig::default();
    assert_eq!(cfg.min_overlap, 30);
    let corr = anchor_correlations(&anchor, &cfg);
    let obs = corr
        .get(&UnorderedPair::new(key("a"), key("b")))
        .expect("a pair with overlap exactly at min_overlap must be kept");
    assert_eq!(obs.n_both, 30);
}

// -- pearson ---------------------------------------------------------------------

#[test]
fn pearson_rejects_length_mismatch() {
    // An empty or length-mismatched sample has no correlation.
    assert_eq!(pearson(&[0.0, 1.0, 2.0], &[10.0, 20.0]), None);
    assert_eq!(pearson(&[], &[]), None);
}

// -- coupled_weights -----------------------------------------------------------

fn w(cw: &CoupledWeights, name: &str) -> f64 {
    *cw.weights.get(&key(name)).unwrap()
}

#[test]
fn decoupled_limit_weights_proportional_to_g() {
    // R = I (coupling disabled): w_c ∝ g_c, normalized to sum N, all non-negative.
    let g = gmap(&[("a", 1.0), ("b", 2.0), ("c", 3.0)]);
    let keys = [key("a"), key("b"), key("c")];
    let cfg = CouplingConfig::default(); // disabled
    let cw = coupled_weights(&g, &BTreeMap::new(), &keys, &cfg);
    close(w(&cw, "a"), 0.5, 1e-12);
    close(w(&cw, "b"), 1.0, 1e-12);
    close(w(&cw, "c"), 1.5, 1e-12);
    let total: f64 = cw.weights.values().sum();
    close(total, 3.0, 1e-12);
    assert!(cw.weights.values().all(|&x| x >= 0.0));
    close(cw.effective_channels, 3.0, 1e-12);
}

#[test]
fn disabled_coupling_is_exactly_the_decoupled_limit() {
    // A reliable redundant pair present, but coupling disabled: weights ignore it
    // and match w_c ∝ g_c exactly.
    let g = gmap(&[("a", 1.0), ("b", 1.0), ("c", 1.0)]);
    let keys = [key("a"), key("b"), key("c")];
    let mut pairs = BTreeMap::new();
    pairs.insert(
        UnorderedPair::new(key("a"), key("b")),
        redundancy(0.8, 50.0),
    );
    let cfg = CouplingConfig {
        enabled: false,
        ..CouplingConfig::default()
    };
    let cw = coupled_weights(&g, &pairs, &keys, &cfg);
    for name in ["a", "b", "c"] {
        close(w(&cw, name), 1.0, 1e-12);
    }
    close(cw.effective_channels, 3.0, 1e-12);
}

#[test]
fn single_refresh_is_not_discounted() {
    // stability across query strata is a between-refresh property, and one
    // refresh has zero between-refresh variance BY CONSTRUCTION, so it clears the
    // variance threshold without demonstrating anything. The refresh threshold keeps a
    // reliable-looking single-refresh pair at independence; a second agreeing
    // refresh (same mean, variance still 0) unlocks the discount.
    let g = gmap(&[("a", 1.0), ("b", 1.0), ("c", 1.0)]);
    let keys = [key("a"), key("b"), key("c")];
    let cfg = CouplingConfig {
        enabled: true,
        ..CouplingConfig::default()
    };
    assert_eq!(cfg.min_refreshes, 2.0);

    let mut single = BTreeMap::new();
    single.insert(
        UnorderedPair::new(key("a"), key("b")),
        PairBaseline {
            redundancy: MeanVar::from_prior(0.8, 0.0, 50.0),
            refreshes: 1.0,
        },
    );
    let held = coupled_weights(&g, &single, &keys, &cfg);
    for name in ["a", "b", "c"] {
        close(w(&held, name), 1.0, 1e-12);
    }
    close(held.effective_channels, 3.0, 1e-12);

    // The same evidence over two refreshes discounts.
    let mut double = BTreeMap::new();
    double.insert(
        UnorderedPair::new(key("a"), key("b")),
        PairBaseline {
            redundancy: MeanVar::from_prior(0.8, 0.0, 50.0),
            refreshes: 2.0,
        },
    );
    let discounted = coupled_weights(&g, &double, &keys, &cfg);
    assert!(w(&discounted, "c") > w(&discounted, "a"));
    assert!(discounted.effective_channels < 3.0);
}

#[test]
fn unreliable_pair_below_min_reliability_is_dropped() {
    // Coupling enabled but the pair's count is below min_reliability: no discount,
    // so weights stay at the decoupled limit.
    let g = gmap(&[("a", 1.0), ("b", 1.0)]);
    let keys = [key("a"), key("b")];
    let mut pairs = BTreeMap::new();
    // count 5 < default min_reliability 10
    pairs.insert(UnorderedPair::new(key("a"), key("b")), redundancy(0.8, 5.0));
    let cfg = CouplingConfig {
        enabled: true,
        ..CouplingConfig::default()
    };
    let cw = coupled_weights(&g, &pairs, &keys, &cfg);
    close(w(&cw, "a"), 1.0, 1e-12);
    close(w(&cw, "b"), 1.0, 1e-12);
    close(cw.effective_channels, 2.0, 1e-12);
}

#[test]
fn redundant_reliable_pair_is_downweighted_symmetrically() {
    // Channels a,b share a reliable redundancy; c is independent. a and b are
    // down-weighted equally and below c; weights sum to N and stay non-negative.
    let g = gmap(&[("a", 1.0), ("b", 1.0), ("c", 1.0)]);
    let keys = [key("a"), key("b"), key("c")];
    let mut pairs = BTreeMap::new();
    pairs.insert(
        UnorderedPair::new(key("a"), key("b")),
        redundancy(0.8, 20.0),
    );
    let cfg = CouplingConfig {
        enabled: true,
        ..CouplingConfig::default()
    };
    let cw = coupled_weights(&g, &pairs, &keys, &cfg);
    // Symmetric: a and b carry the same weight.
    close(w(&cw, "a"), w(&cw, "b"), 1e-12);
    // The independent channel keeps more weight than the redundant pair.
    assert!(w(&cw, "c") > w(&cw, "a"));
    // Sums to N, all non-negative.
    let total: f64 = cw.weights.values().sum();
    close(total, 3.0, 1e-12);
    assert!(cw.weights.values().all(|&x| x >= 0.0));
    // Effective channels drop below N once two channels correlate.
    assert!(cw.effective_channels < 3.0);
    assert!(cw.effective_channels > 2.0);
}

#[test]
fn negative_redundancy_is_treated_as_independence() {
    // redundancy is the NON-NEGATIVE shared-nuisance term, and coupling is a
    // discount mechanism that never credits anti-correlation. A reliable pair whose
    // redundancy mean is negative is clamped to 0 (independence), so the weights match
    // the decoupled limit w_c ∝ g_c and effective_channels stays at N (never above it).
    let g = gmap(&[("a", 1.0), ("b", 2.0), ("c", 3.0)]);
    let keys = [key("a"), key("b"), key("c")];
    let cfg = CouplingConfig {
        enabled: true,
        ..CouplingConfig::default()
    };

    let mut negative = BTreeMap::new();
    negative.insert(
        UnorderedPair::new(key("a"), key("b")),
        redundancy(-0.8, 50.0), // negative redundancy mean, otherwise reliable
    );
    let cw = coupled_weights(&g, &negative, &keys, &cfg);
    // Decoupled limit: w_c ∝ g_c normalized to sum N, exactly as if the pair were absent.
    close(w(&cw, "a"), 0.5, 1e-12);
    close(w(&cw, "b"), 1.0, 1e-12);
    close(w(&cw, "c"), 1.5, 1e-12);
    // No anti-correlation credit: effective channels stays at N, not above it.
    close(cw.effective_channels, 3.0, 1e-12);

    // A reliable POSITIVE pair of the same magnitude still discounts (existing behavior).
    let mut positive = BTreeMap::new();
    positive.insert(
        UnorderedPair::new(key("a"), key("b")),
        redundancy(0.8, 50.0),
    );
    let discounted = coupled_weights(&g, &positive, &keys, &cfg);
    assert!(discounted.effective_channels < 3.0);
    assert!(discounted.effective_channels > 2.0);
}

#[test]
fn high_variance_reliable_pair_degrades_to_independence() {
    // stratum-stability threshold: a reliable pair whose redundancy is unstable
    // across query strata (high between-stratum variance) is dropped to
    // independence, while a low-variance reliable pair of the same mean/count is
    // used. The two pairs differ ONLY in variance, isolating the threshold.
    let g = gmap(&[("a", 1.0), ("b", 1.0), ("c", 1.0)]);
    let keys = [key("a"), key("b"), key("c")];
    let cfg = CouplingConfig {
        enabled: true,
        ..CouplingConfig::default()
    };

    // Low-variance reliable pair: the discount applies, so a and b drop below c.
    let mut stable = BTreeMap::new();
    stable.insert(
        UnorderedPair::new(key("a"), key("b")),
        PairBaseline {
            redundancy: MeanVar::from_prior(0.8, 0.0, 50.0),
            refreshes: 2.0,
        },
    );
    let used = coupled_weights(&g, &stable, &keys, &cfg);
    assert!(w(&used, "c") > w(&used, "a"));
    close(w(&used, "a"), w(&used, "b"), 1e-12);

    // High-variance reliable pair: variance 0.5 exceeds the default
    // stratum_stability_max_var of 0.25, so the discount is dropped and the weights
    // return to the independence limit w_c ∝ g_c (all equal here).
    let mut unstable = BTreeMap::new();
    unstable.insert(
        UnorderedPair::new(key("a"), key("b")),
        PairBaseline {
            redundancy: MeanVar::from_prior(0.8, 0.5, 50.0),
            refreshes: 2.0,
        },
    );
    let dropped = coupled_weights(&g, &unstable, &keys, &cfg);
    close(w(&dropped, "a"), 1.0, 1e-12);
    close(w(&dropped, "b"), 1.0, 1e-12);
    close(w(&dropped, "c"), 1.0, 1e-12);
    // No correlation used: effective channels back at N.
    close(dropped.effective_channels, 3.0, 1e-12);
}

#[test]
fn clamp_zeroes_a_negative_inverse_entry_and_renormalizes() {
    // A channel correlated with two others that are nearly independent of each other
    // makes its raw Σ̂⁻¹1 entry negative. With shrink 0 and a high cap, R is the raw
    // (still PD) correlation matrix and the negative entry clamps to 0.
    let g = gmap(&[("a", 1.0), ("b", 1.0), ("c", 1.0)]);
    let keys = [key("a"), key("b"), key("c")];
    let mut pairs = BTreeMap::new();
    pairs.insert(
        UnorderedPair::new(key("a"), key("b")),
        redundancy(0.7, 50.0),
    );
    pairs.insert(
        UnorderedPair::new(key("a"), key("c")),
        redundancy(0.7, 50.0),
    );
    pairs.insert(
        UnorderedPair::new(key("b"), key("c")),
        redundancy(0.1, 50.0),
    );
    let cfg = CouplingConfig {
        enabled: true,
        discount_cap: 0.9,
        shrink_to_identity: 0.0,
        min_reliability: 1.0,
        ..CouplingConfig::default()
    };
    let cw = coupled_weights(&g, &pairs, &keys, &cfg);
    // Channel a is explained away: its weight clamps to exactly 0.
    close(w(&cw, "a"), 0.0, 1e-12);
    close(w(&cw, "b"), 1.5, 1e-9);
    close(w(&cw, "c"), 1.5, 1e-9);
    let total: f64 = cw.weights.values().sum();
    close(total, 3.0, 1e-12);
    assert!(cw.weights.values().all(|&x| x >= 0.0));
}

#[test]
fn effective_channels_is_n_when_independent_and_fewer_when_correlated() {
    let keys = [key("a"), key("b")];
    let g = gmap(&[("a", 1.0), ("b", 1.0)]);

    // Independent (disabled): effective == N.
    let indep = coupled_weights(&g, &BTreeMap::new(), &keys, &CouplingConfig::default());
    close(indep.effective_channels, 2.0, 1e-12);

    // Strongly correlated: effective < N.
    let mut pairs = BTreeMap::new();
    pairs.insert(
        UnorderedPair::new(key("a"), key("b")),
        redundancy(0.9, 50.0),
    );
    let cfg = CouplingConfig {
        enabled: true,
        ..CouplingConfig::default()
    };
    let corr = coupled_weights(&g, &pairs, &keys, &cfg);
    assert!(corr.effective_channels < 2.0);
    assert!(corr.effective_channels > 0.0);
}

#[test]
fn single_channel_carries_full_weight() {
    let g = gmap(&[("a", 2.0)]);
    let keys = [key("a")];
    let cw = coupled_weights(&g, &BTreeMap::new(), &keys, &CouplingConfig::default());
    close(w(&cw, "a"), 1.0, 1e-12);
    close(cw.effective_channels, 1.0, 1e-12);
}

#[test]
fn empty_channel_set_is_empty() {
    let cw = coupled_weights(
        &BTreeMap::new(),
        &BTreeMap::new(),
        &[],
        &CouplingConfig::default(),
    );
    assert!(cw.weights.is_empty());
    assert_eq!(cw.effective_channels, 0.0);
}

#[test]
fn nonpositive_discrimination_is_floored_to_neutral() {
    // The discrimination vector defends each entry: a missing, zero, negative, or
    // non-finite `g` is replaced by a neutral 1.0 rather than fed into `D =
    // diag(1/sqrt(g))`, which a non-positive `g` would make non-finite and collapse
    // the channel's weight. Coupling is disabled here, so `R = I` and a properly
    // floored, all-equal `g` gives every channel weight exactly 1.0.
    let keys = [key("a"), key("b")];
    let cfg = CouplingConfig::default(); // disabled, R = I

    // A zero entry is not above zero, so it counts as one.
    let zero = coupled_weights(
        &gmap(&[("a", 0.0), ("b", 1.0)]),
        &BTreeMap::new(),
        &keys,
        &cfg,
    );
    close(w(&zero, "a"), 1.0, 1e-12);
    close(w(&zero, "b"), 1.0, 1e-12);

    // A negative entry counts as one.
    let neg = coupled_weights(
        &gmap(&[("a", -5.0), ("b", 1.0)]),
        &BTreeMap::new(),
        &keys,
        &cfg,
    );
    close(w(&neg, "a"), 1.0, 1e-12);
    close(w(&neg, "b"), 1.0, 1e-12);
}

// -- diagnostics ---------------------------------------------------------------

#[test]
fn diagnostics_identical_top_sets_are_confident_and_unconflicted() {
    let sets = vec![(key("a"), vec![1, 2, 3]), (key("b"), vec![1, 2, 3])];
    let Diagnostics {
        confidence,
        conflict,
    } = diagnostics(&sets);
    close(confidence, 1.0, 1e-12);
    close(conflict, 0.0, 1e-12);
}

#[test]
fn diagnostics_disjoint_top_sets_conflict() {
    let sets = vec![(key("a"), vec![1, 2, 3]), (key("b"), vec![4, 5, 6])];
    let Diagnostics {
        confidence,
        conflict,
    } = diagnostics(&sets);
    close(confidence, 0.0, 1e-12);
    close(conflict, 1.0, 1e-12);
}

#[test]
fn diagnostics_partial_overlap_is_jaccard() {
    // ∩ = {3,4} (2), ∪ = {1..6} (6) -> Jaccard 1/3.
    let sets = vec![(key("a"), vec![1, 2, 3, 4]), (key("b"), vec![3, 4, 5, 6])];
    let Diagnostics {
        confidence,
        conflict,
    } = diagnostics(&sets);
    close(confidence, 1.0 / 3.0, 1e-12);
    close(conflict, 2.0 / 3.0, 1e-12);
}

#[test]
fn diagnostics_three_sets_generalize() {
    // ∩ = {3} (1), ∪ = {1,2,3,4,5} (5) -> Jaccard 0.2.
    let sets = vec![
        (key("a"), vec![1, 2, 3]),
        (key("b"), vec![2, 3, 4]),
        (key("c"), vec![3, 4, 5]),
    ];
    let Diagnostics {
        confidence,
        conflict,
    } = diagnostics(&sets);
    close(confidence, 0.2, 1e-12);
    close(conflict, 0.8, 1e-12);
}

#[test]
fn diagnostics_need_two_sets() {
    let sets = vec![(key("a"), vec![1, 2, 3])];
    assert_eq!(
        diagnostics(&sets),
        Diagnostics {
            confidence: 0.0,
            conflict: 0.0,
        }
    );
    let none: Vec<(String, Vec<i32>)> = vec![];
    assert_eq!(
        diagnostics(&none),
        Diagnostics {
            confidence: 0.0,
            conflict: 0.0,
        }
    );
}

#[test]
fn diagnostics_dedupe_within_a_set() {
    // Duplicates inside a list collapse: {1,2} vs {2} -> ∩={2}, ∪={1,2} -> 0.5.
    let sets = vec![(key("a"), vec![1, 1, 2, 2]), (key("b"), vec![2, 2, 2])];
    let confidence = diagnostics(&sets).confidence;
    close(confidence, 0.5, 1e-12);
}

#[test]
fn without_coupling_even_channels_weigh_exactly_one() {
    for n in 1..=12usize {
        let keys: Vec<String> = (0..n).map(|i| format!("c{i:02}")).collect();
        let g: BTreeMap<String, f64> = keys.iter().map(|k| (k.clone(), 1.0)).collect();
        for shrink in [0.0, 0.1, 0.3, 0.5, 0.7, 1.0] {
            let cfg = CouplingConfig {
                shrink_to_identity: shrink,
                ..CouplingConfig::default()
            };
            let cw = coupled_weights(&g, &BTreeMap::new(), &keys, &cfg);
            assert!(cw.weights.values().all(|&x| x == 1.0), "{n} channels");
            assert_eq!(cw.effective_channels, n as f64);
        }
    }
}

#[test]
fn a_perfectly_ranked_pair_correlates_fully() {
    let cands: Vec<usize> = (0..40).collect();
    let (ca, cb, cc) = (channel("a"), channel("b"), channel("c"));
    let anchor = Anchor::build(&cands, &[&ca, &cb, &cc], |id, k| {
        let x = *id as f64;
        Some(Val(match k {
            "a" => x,
            "b" => x * x * x,
            _ => -x,
        }))
    });
    let corr = anchor_correlations(&anchor, &CouplingConfig::default());
    assert_eq!(corr.len(), 3);
    close(corr[&UnorderedPair::new(key("a"), key("b"))].correlation, 1.0, 1e-15);
    close(corr[&UnorderedPair::new(key("a"), key("c"))].correlation, -1.0, 1e-15);
    for o in corr.values() {
        assert!((-1.0..=1.0).contains(&o.correlation));
        assert_eq!(o.n_both, 40);
    }
}

#[test]
fn observations_are_mapped_from_given_sines() {
    let list = [
        lib::RankCorrelation {
            first: 1,
            second: 0,
            rho: d(0.5),
            n_both: 31,
        },
        lib::RankCorrelation {
            first: 0,
            second: 2,
            rho: d(-0.25),
            n_both: 44,
        },
    ];
    let channels = [key("m"), key("b"), key("z")];
    let out = lib::observations(&channels, &list, &[d(0.26), d(-0.75)]);
    assert_eq!(out.len(), 2);
    let first = out.get(&UnorderedPair::new(key("b"), key("m"))).unwrap();
    assert_eq!((f(first.correlation), first.n_both), (0.52, 31));
    let second = out.get(&UnorderedPair::new(key("m"), key("z"))).unwrap();
    // Twice the sine is held to the range of a correlation.
    assert_eq!((f(second.correlation), second.n_both), (-1.0, 44));
}

#[test]
fn correlations_are_computed_as_documented() {
    let xs = [1.0, 2.0, 4.0];
    let ys = [2.0, 1.0, 5.0];
    let (mx, my) = (7.0 / 3.0, 8.0 / 3.0);
    let mut cov = 0.0;
    let mut vx = 0.0;
    let mut vy = 0.0;
    for i in 0..3 {
        cov += (xs[i] - mx) * (ys[i] - my);
        vx += (xs[i] - mx) * (xs[i] - mx);
        vy += (ys[i] - my) * (ys[i] - my);
    }
    assert_eq!(pearson(&xs, &ys), Some(cov / (f64::sqrt(vx) * f64::sqrt(vy))));
}

#[test]
fn a_repeated_key_keeps_its_last_weight() {
    let keys = [key("a"), key("b"), key("a")];
    let g = gmap(&[("a", 1.0), ("b", 3.0)]);
    let cw = coupled_weights(&g, &BTreeMap::new(), &keys, &CouplingConfig::default());
    assert_eq!(cw.weights.len(), 2);
    close(w(&cw, "a"), 0.6, 1e-12);
    close(w(&cw, "b"), 1.8, 1e-12);
}

/// Weights of so many equal channels with the given correlations by position.
fn correlated(n: usize, pairs: &[(usize, usize, f64)], cap: f64, shrink: f64) -> CoupledWeights {
    let keys: Vec<String> = (0..n).map(|i| format!("c{i}")).collect();
    let g: BTreeMap<String, f64> = keys.iter().map(|k| (k.clone(), 1.0)).collect();
    let mut baselines = BTreeMap::new();
    for (i, j, mean) in pairs {
        baselines.insert(
            UnorderedPair::new(keys[*i].clone(), keys[*j].clone()),
            redundancy(*mean, 50.0),
        );
    }
    let cfg = CouplingConfig {
        enabled: true,
        discount_cap: cap,
        shrink_to_identity: shrink,
        ..CouplingConfig::default()
    };
    coupled_weights(&g, &baselines, &keys, &cfg)
}

#[test]
fn effective_channels_never_exceed_the_channel_count() {
    // One channel correlated with several that are independent of one another.
    let three = correlated(3, &[(0, 1, 0.7), (0, 2, 0.7)], 0.9, 0.0);
    assert!(three.effective_channels > 0.0 && three.effective_channels <= 3.0);
    let five = correlated(
        5,
        &[(0, 1, 0.75), (0, 2, 0.5), (0, 3, 0.25), (0, 4, 0.25)],
        1.0,
        0.0,
    );
    assert_eq!(five.effective_channels, 5.0);
    let hub: Vec<(usize, usize, f64)> = (1..9).map(|i| (0, i, 0.5)).collect();
    let nine = correlated(9, &hub, 0.5, 0.5);
    assert!(nine.effective_channels > 0.0 && nine.effective_channels <= 9.0);
    let none = correlated(2, &[], 0.9, 0.0);
    assert_eq!(none.effective_channels, 2.0);
    let twins = correlated(2, &[(0, 1, 0.5)], 0.9, 0.0);
    close(twins.effective_channels, 2.0 / 1.5, 1e-12);
}

#[test]
fn a_pair_that_does_not_count_is_as_good_as_absent() {
    let g = gmap(&[("a", 1.0), ("b", 2.0), ("c", 3.0)]);
    let keys = [key("a"), key("b"), key("c")];
    let cfg = CouplingConfig {
        enabled: true,
        ..CouplingConfig::default()
    };
    let absent = coupled_weights(&g, &BTreeMap::new(), &keys, &cfg);
    let few = PairBaseline {
        redundancy: MeanVar::from_prior(0.8, 0.0, 50.0),
        refreshes: 1.0,
    };
    for b in [few, redundancy(0.8, 0.0), redundancy(-0.4, 50.0), redundancy(0.0, 50.0)] {
        let mut pairs = BTreeMap::new();
        pairs.insert(UnorderedPair::new(key("a"), key("b")), b);
        let out = coupled_weights(&g, &pairs, &keys, &cfg);
        assert_eq!(out.weights, absent.weights);
        assert_eq!(out.effective_channels, absent.effective_channels);
    }
}

#[test]
fn with_coupling_off_weights_are_proportional_over_a_wide_range() {
    let g = gmap(&[("a", 1e-6), ("b", 0.3), ("c", 7.25), ("d", 1e6)]);
    let keys = [key("a"), key("b"), key("c"), key("d")];
    let mut pairs = BTreeMap::new();
    pairs.insert(UnorderedPair::new(key("a"), key("d")), redundancy(0.9, 80.0));
    let off = CouplingConfig {
        enabled: false,
        ..CouplingConfig::default()
    };
    let bare = coupled_weights(&g, &BTreeMap::new(), &keys, &off);
    let cw = coupled_weights(&g, &pairs, &keys, &off);
    assert_eq!(cw.weights, bare.weights);
    assert_eq!(cw.effective_channels, 4.0);
    let total: f64 = g.values().sum();
    for (name, x) in &g {
        let share = 4.0 * x / total;
        close(*cw.weights.get(name).unwrap() / share, 1.0, 2e-14);
    }
}

#[test]
fn discounted_weights_sum_to_the_number_of_channels() {
    let four = correlated(4, &[(0, 1, 0.8), (1, 2, 0.4), (0, 3, 0.1)], 0.9, 0.1);
    assert!(four.weights.values().all(|x| x.is_finite() && *x >= 0.0));
    close(four.weights.values().sum::<f64>(), 4.0, 1e-13);
    let keys = [key("a"), key("b"), key("c")];
    let g = gmap(&[("a", 0.003), ("b", 41.5), ("c", 1.0)]);
    let mut pairs = BTreeMap::new();
    pairs.insert(UnorderedPair::new(key("a"), key("c")), redundancy(0.6, 90.0));
    let cfg = CouplingConfig {
        enabled: true,
        ..CouplingConfig::default()
    };
    let three = coupled_weights(&g, &pairs, &keys, &cfg);
    close(three.weights.values().sum::<f64>(), 3.0, 1e-13);
}

#[test]
fn one_score_that_differs_makes_a_pair_present() {
    let n = 40usize;
    let cands: Vec<usize> = (0..n).collect();
    let ca = channel("a");
    let cb = channel("b");
    let anchor = |odd: f64| {
        Anchor::build(&cands, &[&ca, &cb], move |id, k| {
            let v = if k == "a" {
                *id as f64
            } else if *id == 7 {
                odd
            } else {
                1.0
            };
            Some(Val(v))
        })
    };
    let cfg = CouplingConfig::default();
    assert!(anchor_correlations(&anchor(1.0), &cfg).is_empty());
    let next = f64::from_bits(1.0f64.to_bits() + 1);
    let read = anchor_correlations(&anchor(next), &cfg);
    let pair = UnorderedPair::new(key("a"), key("b"));
    assert_eq!(read.get(&pair).unwrap().n_both, 40);
    // Only the order of the scores matters.
    let far = anchor_correlations(&anchor(1.0e9), &cfg);
    assert_eq!(
        far.get(&pair).unwrap().correlation,
        read.get(&pair).unwrap().correlation
    );
}
