use ruffle::score::OrientedReference;
use ruffle::weighting::discrimination as lib;
use ruffle::{Direction, Double, GoodScore, Items};

fn d(x: f64) -> Double {
    Double::from_bits(x.to_bits())
}

fn f(x: Double) -> f64 {
    f64::from_bits(x.to_bits())
}

fn close(a: f64, b: f64, eps: f64) {
    assert!((a - b).abs() <= eps, "{a} is not within {eps} of {b}");
}

/// A summary that speaks machine numbers.
#[derive(Clone, Copy, Debug, PartialEq)]
struct MeanVar(ruffle::MeanVar);

impl MeanVar {
    fn new() -> Self {
        MeanVar(ruffle::MeanVar::new())
    }
    fn from_prior(mean: f64, variance: f64, count: f64) -> Self {
        MeanVar(ruffle::MeanVar::from_prior(d(mean), d(variance), d(count)))
    }
    fn push(&mut self, x: f64) {
        self.0.push(d(x));
    }
    fn count(&self) -> f64 {
        f(self.0.count())
    }
    fn mean(&self) -> f64 {
        f(self.0.mean())
    }
    fn std_dev(&self) -> f64 {
        f(self.0.std_dev())
    }
    fn zscore(&self, x: f64) -> Option<f64> {
        self.0.zscore(d(x)).map(f)
    }
}

/// The knobs in machine numbers.
#[derive(Clone, Copy)]
struct DiscriminationConfig {
    denom_floor_frac: f64,
    winsor_z: f64,
    min_count_for_z: f64,
    g_upper_bound: f64,
    g_floor: f64,
    g_slope: f64,
    g_deviation_keep: f64,
}

impl Default for DiscriminationConfig {
    fn default() -> Self {
        let c = ruffle::DiscriminationConfig::default();
        DiscriminationConfig {
            denom_floor_frac: f(c.denom_floor_frac),
            winsor_z: f(c.winsor_z),
            min_count_for_z: f(c.min_count_for_z),
            g_upper_bound: f(c.g_upper_bound),
            g_floor: f(c.g_floor),
            g_slope: f(c.g_slope),
            g_deviation_keep: f(c.g_deviation_keep),
        }
    }
}

impl DiscriminationConfig {
    fn soft(&self) -> ruffle::DiscriminationConfig {
        let mut c = ruffle::DiscriminationConfig::default();
        c.denom_floor_frac = d(self.denom_floor_frac);
        c.winsor_z = d(self.winsor_z);
        c.min_count_for_z = d(self.min_count_for_z);
        c.g_upper_bound = d(self.g_upper_bound);
        c.g_floor = d(self.g_floor);
        c.g_slope = d(self.g_slope);
        c.g_deviation_keep = d(self.g_deviation_keep);
        c
    }
}

/// A read in machine numbers.
struct Read {
    g: f64,
    raw_separation: Option<f64>,
    top_m_average: Option<f64>,
    degenerate_separation: bool,
    reference_cold: bool,
}

fn exp(x: Double) -> Double {
    d(libm::exp(f(x)))
}

fn discriminate(
    items: &Items<u32>,
    separation: &MeanVar,
    reference: &MeanVar,
    cfg: &DiscriminationConfig,
) -> Read {
    let r = lib::discriminate(items, &separation.0, &reference.0, &cfg.soft(), &exp);
    Read {
        g: f(r.g),
        raw_separation: r.raw_separation.map(f),
        top_m_average: r.top_m_average.map(f),
        degenerate_separation: r.degenerate_separation,
        reference_cold: r.reference_cold,
    }
}

fn squash(z: f64, k: f64) -> f64 {
    f(lib::squash(exp(lib::squash_input(d(z), d(k)))))
}

fn shrunk_factor(z: f64, lambda: f64, k: f64) -> f64 {
    f(lib::shrunk_factor(d(lambda), exp(lib::squash_input(d(z), d(k)))))
}

fn combine(sep: f64, abs: f64, cfg: &DiscriminationConfig) -> f64 {
    f(lib::combine(d(sep), d(abs), &cfg.soft()))
}

fn level_shrunk(g: f64, level: &MeanVar, cfg: &DiscriminationConfig) -> f64 {
    f(lib::level_shrunk(d(g), &level.0, &cfg.soft()))
}

fn winsorize_separation(raw: f64, baseline: &MeanVar, cfg: &DiscriminationConfig) -> f64 {
    f(lib::winsorize_separation(d(raw), &baseline.0, &cfg.soft()))
}

fn quantile_sorted(sorted: &[f64], p: f64) -> f64 {
    let s: Vec<Double> = sorted.iter().map(|x| d(*x)).collect();
    f(lib::quantile_sorted(&s, d(p)))
}

fn scored(xs: &[f64]) -> Items<u32> {
    Items::Scored(xs.iter().enumerate().map(|(i, &x)| (i as u32, d(x))).collect())
}

/// A good-score reference baseline seeded to a chosen mean, std, and pseudo-count.
fn ref_baseline(mu: f64, sigma: f64, n0: f64) -> MeanVar {
    MeanVar::from_prior(mu, sigma * sigma, n0)
}

/// A separation baseline filled from the given reads.
fn sep_baseline(reads: &[f64]) -> MeanVar {
    let mut sep = MeanVar::new();
    for &r in reads {
        sep.push(r);
    }
    sep
}

/// A bulk packed into `[0, 10]` with two items spiked far above it.
fn spiked_pool() -> Vec<f64> {
    let mut v: Vec<f64> = (0..48).map(|i| 10.0 * (i as f64) / 47.0).collect();
    v.push(100.0);
    v.push(100.0);
    v
}

fn raw_sep_of(xs: &[f64]) -> f64 {
    discriminate(
        &scored(xs),
        &MeanVar::new(),
        &MeanVar::new(),
        &DiscriminationConfig::default(),
    )
    .raw_separation
    .expect("separation should be defined for this pool")
}

// --- ranks-only and empty pools ------------------------------------------------

#[test]
fn ranks_only_is_neutral() {
    let items: Items<u32> = Items::Ranks(vec![3, 1, 2]);
    let d = discriminate(
        &items,
        &MeanVar::new(),
        &MeanVar::new(),
        &DiscriminationConfig::default(),
    );
    assert_eq!(d.g, 1.0);
    assert_eq!(d.raw_separation, None);
    assert_eq!(d.top_m_average, None);
    assert!(!d.degenerate_separation);
    assert!(!d.reference_cold);
}

#[test]
fn empty_pool_is_neutral() {
    let items: Items<u32> = Items::Scored(vec![]);
    let d = discriminate(
        &items,
        &MeanVar::new(),
        &ref_baseline(0.3, 0.07, 8.0),
        &DiscriminationConfig::default(),
    );
    assert_eq!(d.g, 1.0);
    assert_eq!(d.raw_separation, None);
    assert_eq!(d.top_m_average, None);
}

// --- D^sep scale and shift invariance ------------------------------------------

#[test]
fn separation_is_scale_invariant() {
    let base = spiked_pool();
    let up: Vec<f64> = base.iter().map(|x| x * 100.0).collect();
    let down: Vec<f64> = base.iter().map(|x| x * 0.01).collect();
    // An extreme downscale pins the degeneracy guard's scale-invariance too: the
    // guard compares the denominator against the bulk span at a RELATIVE epsilon
    // (`eps * span`), so shrinking every score by 1e-7 changes nothing. Dividing by
    // the span instead would make the threshold grow as the units shrink and
    // misread a perfectly-shaped tiny-units pool as degenerate.
    let tiny: Vec<f64> = base.iter().map(|x| x * 1.0e-7).collect();

    let d0 = raw_sep_of(&base);
    close(raw_sep_of(&up), d0, 1e-9);
    close(raw_sep_of(&down), d0, 1e-9);
    close(raw_sep_of(&tiny), d0, 1e-9);
}

#[test]
fn separation_is_shift_invariant() {
    let base = spiked_pool();
    let shifted: Vec<f64> = base.iter().map(|x| x + 1000.0).collect();
    // A large shift over an order-one bulk forfeits a few digits to f64
    // cancellation, so the tolerance is looser than the rescale test above.
    close(raw_sep_of(&shifted), raw_sep_of(&base), 1e-7);
}

#[test]
fn separation_tracks_informativeness() {
    // A tight bulk with no standout against the same bulk with a few items lifted
    // far above it: the second is the more informative channel.
    let flat: Vec<f64> = (0..50).map(|i| 0.40 + 0.20 * (i as f64) / 49.0).collect();
    let mut spiked: Vec<f64> = (0..48).map(|i| 0.40 + 0.20 * (i as f64) / 47.0).collect();
    spiked.push(2.0);
    spiked.push(2.0);

    let flat_sep = raw_sep_of(&flat);
    let spiked_sep = raw_sep_of(&spiked);
    assert!(flat_sep > 0.0);
    assert!(
        spiked_sep > flat_sep,
        "spiked {spiked_sep} should exceed flat {flat_sep}"
    );
}

// --- degeneracy ----------------------------------------------------------------

#[test]
fn too_few_distinct_values_is_degenerate_none() {
    // Five distinct values, below the default minimum of eight.
    let d = discriminate(
        &scored(&[1.0, 2.0, 3.0, 4.0, 5.0]),
        &MeanVar::new(),
        &MeanVar::new(),
        &DiscriminationConfig::default(),
    );
    assert_eq!(d.raw_separation, None);
    assert!(d.degenerate_separation);
    assert!(d.g.is_finite());
}

#[test]
fn collapsed_bulk_is_degenerate_none() {
    // Eight distinct values, but the lower three quarters are tied at zero, so the
    // bulk scale collapses even after the floor.
    let mut pool = vec![0.0; 33];
    pool.extend([1.0, 2.0, 3.0, 4.0, 5.0, 6.0, 7.0]);
    let d = discriminate(
        &scored(&pool),
        &MeanVar::new(),
        &MeanVar::new(),
        &DiscriminationConfig::default(),
    );
    assert_eq!(d.raw_separation, None);
    assert!(d.degenerate_separation);
    assert!(d.g.is_finite());
}

#[test]
fn tied_lower_half_is_floored_but_bounded() {
    // An integer-count channel: the lower half is tied at zero (so q0.5 - q0.1 is
    // zero) but the upper half spreads, so the inter-quartile floor keeps the
    // denominator positive and the statistic stays a bounded number.
    let mut pool = vec![0.0; 11];
    pool.extend([1.0, 2.0, 3.0, 4.0, 5.0, 6.0, 7.0, 8.0, 9.0]);
    let d = discriminate(
        &scored(&pool),
        &MeanVar::new(),
        &MeanVar::new(),
        &DiscriminationConfig::default(),
    );
    let sep = d.raw_separation.expect("floored read is still defined");
    assert!(sep.is_finite() && sep > 0.0);
    assert!(d.degenerate_separation, "the floor was applied");
}

#[test]
fn no_nan_on_degenerate_inputs() {
    let cfg = DiscriminationConfig::default();
    let pools: Vec<Vec<f64>> = vec![
        vec![3.0; 20],            // all equal
        vec![1.0],                // single value
        vec![0.0, 0.0, 0.0, 5.0], // tiny, mostly tied
    ];
    for pool in pools {
        for (sep, refb) in [
            (MeanVar::new(), MeanVar::new()),
            (MeanVar::new(), ref_baseline(0.3, 0.07, 8.0)),
        ] {
            let d = discriminate(&scored(&pool), &sep, &refb, &cfg);
            assert!(d.g.is_finite(), "g must be finite for pool {pool:?}");
            assert!(d.g >= cfg.g_floor && d.g <= cfg.g_upper_bound);
        }
    }
}

// --- D^abs closes the separation blind spot ------------------------------------

#[test]
fn absolute_goodness_separates_flat_low_from_flat_high() {
    // The same tight pool shifted up by a constant: separation cannot tell the two
    // apart (it is shift-invariant), while absolute goodness reads the second as
    // clearly above the channel's typical top and the first as clearly below it.
    let low: Vec<f64> = (0..12).map(|i| 0.10 + 0.06 * (i as f64) / 11.0).collect();
    let high: Vec<f64> = low.iter().map(|x| x + 0.40).collect();

    // A declared good-score reference: typical top near 0.30, a good match near 0.44.
    let OrientedReference { mu_ref, sigma_ref } = GoodScore::new(d(0.30), d(0.44), d(8.0))
        .oriented(Direction::HigherIsBetter)
        .unwrap();
    let (mu, sigma) = (f(mu_ref), f(sigma_ref));
    // A populated separation baseline so the weights are not shrunk to neutral; the
    // two pools share the same separation read, so any weight gap is from D^abs.
    let separation = sep_baseline(&[1.5, 2.0, 2.5, 1.8, 2.2]);
    let reference = MeanVar::from_prior(mu, sigma * sigma, 8.0);
    let cfg = DiscriminationConfig::default();

    let d_low = discriminate(&scored(&low), &separation, &reference, &cfg);
    let d_high = discriminate(&scored(&high), &separation, &reference, &cfg);

    // Separation cannot distinguish them.
    close(d_low.raw_separation.unwrap(), d_high.raw_separation.unwrap(), 1e-7);

    // Absolute goodness does, cleanly and with opposite sign.
    let z_low = reference.zscore(d_low.top_m_average.unwrap()).unwrap();
    let z_high = reference.zscore(d_high.top_m_average.unwrap()).unwrap();
    assert!(
        z_low < -1.0,
        "nothing-matches should read below the reference, got {z_low}"
    );
    assert!(
        z_high > 1.0,
        "everything-matches should read above the reference, got {z_high}"
    );
    // The high pool earns more weight than the low one.
    assert!(d_high.g > d_low.g);
}

// --- the g map: AND-like, monotone, bounded, neutral ---------------------------

/// The full (unshrunk) logistic factor for a standardized read at the default slope.
fn factor(z: f64) -> f64 {
    squash(z, DiscriminationConfig::default().g_slope)
}

#[test]
fn combine_is_neutral_at_the_norm() {
    // Both statistics at the channel's norm map to average weight.
    let g = combine(factor(0.0), factor(0.0), &DiscriminationConfig::default());
    close(g, 1.0, 1e-12);
}

#[test]
fn neutral_point_is_independent_of_the_upper_bound() {
    // The neutral scale is the fixed 4 = 1/(0.5*0.5), NOT g_upper_bound: tightening
    // the cap must not silently down-weight an at-norm channel relative to the
    // neutral 1.0 a ranks-only channel carries.
    let cfg = DiscriminationConfig {
        g_upper_bound: 2.0,
        ..Default::default()
    };
    let g = combine(factor(0.0), factor(0.0), &cfg);
    close(g, 1.0, 1e-12);
}

#[test]
fn combine_is_and_like() {
    // An open floor so the product is visible rather than clamped.
    let cfg = DiscriminationConfig {
        g_floor: 0.0,
        ..Default::default()
    };
    let high_sep_low_abs = combine(factor(5.0), factor(-5.0), &cfg);
    let high_both = combine(factor(5.0), factor(5.0), &cfg);
    let neutral = combine(factor(0.0), factor(0.0), &cfg);

    // A strong separation cannot rescue an absolutely poor pool: the product stays
    // near zero. A sum of the two factors would instead sit near its midpoint.
    assert!(high_sep_low_abs < 0.1, "got {high_sep_low_abs}");
    assert!(high_sep_low_abs < neutral);
    assert!(high_both > 3.5, "got {high_both}");
}

#[test]
fn combine_is_monotone_in_both() {
    let cfg = DiscriminationConfig {
        g_floor: 0.0,
        ..Default::default()
    };
    // Monotone in separation, with absolute goodness held fixed.
    assert!(combine(factor(-2.0), factor(0.0), &cfg) < combine(factor(0.0), factor(0.0), &cfg));
    assert!(combine(factor(0.0), factor(0.0), &cfg) < combine(factor(2.0), factor(0.0), &cfg));
    // Monotone in absolute goodness, with separation held fixed.
    assert!(combine(factor(0.0), factor(-2.0), &cfg) < combine(factor(0.0), factor(0.0), &cfg));
    assert!(combine(factor(0.0), factor(0.0), &cfg) < combine(factor(0.0), factor(2.0), &cfg));
}

#[test]
fn combine_is_bounded() {
    let cfg = DiscriminationConfig::default();
    let hi = combine(factor(100.0), factor(100.0), &cfg);
    let lo = combine(factor(-100.0), factor(-100.0), &cfg);
    assert!(hi.is_finite() && lo.is_finite());
    assert!(hi <= cfg.g_upper_bound && hi >= cfg.g_floor);
    assert!(lo <= cfg.g_upper_bound && lo >= cfg.g_floor);
    close(hi, cfg.g_upper_bound, 1e-6);
    close(lo, cfg.g_floor, 1e-12);
}

#[test]
fn combine_never_panics_on_an_inverted_floor_and_bound() {
    // Construction-time validation rejects this pair, but the map itself must also
    // resolve deterministically (min-then-max) rather than panic the way a bare
    // `clamp` would.
    let cfg = DiscriminationConfig {
        g_floor: 5.0,
        g_upper_bound: 4.0,
        ..Default::default()
    };
    let g = combine(factor(0.0), factor(0.0), &cfg);
    assert!(g.is_finite());
}

#[test]
fn shrunk_factor_interpolates_toward_neutral() {
    let k = 1.0;
    // Full evidence: the raw logistic read. No evidence: exactly neutral.
    close(shrunk_factor(2.0, 1.0, k), squash(2.0, k), 1e-12);
    close(shrunk_factor(2.0, 0.0, k), 0.5, 1e-12);
    // Halfway evidence: the midpoint of the two.
    let mid = 0.5 * squash(2.0, k) + 0.25;
    close(shrunk_factor(2.0, 0.5, k), mid, 1e-12);
    // Out-of-range lambda is bounded, never a panic or an extrapolation.
    close(shrunk_factor(2.0, 7.0, k), squash(2.0, k), 1e-12);
    close(shrunk_factor(2.0, -3.0, k), 0.5, 1e-12);
}

// --- cold start and shrinkage --------------------------------------------------

#[test]
fn cold_reference_is_carried_by_separation() {
    // A populated separation baseline but no reference: D^abs is unavailable, and
    // the channel still earns weight from a strongly separated pool.
    let separation = sep_baseline(&[4.0, 4.5, 5.0, 3.5, 4.2, 4.8]);
    let d = discriminate(
        &scored(&spiked_pool()),
        &separation,
        &MeanVar::new(),
        &DiscriminationConfig::default(),
    );
    assert!(d.reference_cold);
    assert!(d.raw_separation.is_some());
    assert!(
        d.g > 1.5,
        "a well-separated query should lift the weight, got {}",
        d.g
    );
}

#[test]
fn tiny_pool_shrinks_toward_neutral() {
    // A tied pool fixes the separation factor to its neutral 0.5 and the absolute
    // read to a known z-score, so the shrunk weight is fully determined and can be
    // checked.
    let cfg = DiscriminationConfig::default();
    let reference = MeanVar::from_prior(0.0, 1.0, 10.0); // mu 0, sigma 1
    let separation = sep_baseline(&[1.0, 2.0, 3.0, 4.0, 5.0, 6.0]);

    // s_top = 2.0 -> d_abs = 2.0. Tiny pool of four (all 2.0): pool_factor = 4/20 =
    // 0.2 and the reference is fully backed, so the absolute factor is the logistic
    // read shrunk by lambda = 0.2 toward 0.5; the separation factor is neutral.
    let f2 = 1.0 / (1.0 + (-2.0f64).exp());
    let tiny = discriminate(&scored(&[2.0; 4]), &separation, &reference, &cfg);
    let expected = 4.0 * 0.5 * (0.2 * f2 + 0.8 * 0.5);
    close(tiny.g, expected, 1e-9);

    // A large pool of the same value keeps the full (unshrunk) absolute factor.
    let large = discriminate(&scored(&[2.0; 40]), &separation, &reference, &cfg);
    close(large.g, 4.0 * 0.5 * f2, 1e-9);

    // Shrinkage pulled the tiny-pool weight toward neutral, below the large pool.
    assert!(tiny.g < large.g);
    assert!((tiny.g - 1.0).abs() < (large.g - 1.0).abs());
}

#[test]
fn brand_new_channel_is_neutral() {
    // No separation baseline at all: the evidence is nil, so the weight collapses to
    // neutral regardless of the pool.
    let cfg = DiscriminationConfig::default();
    let d = discriminate(
        &scored(&spiked_pool()),
        &MeanVar::new(),
        &MeanVar::new(),
        &cfg,
    );
    close(d.g, 1.0, 1e-12);
}

// --- winsorization of the separation read --------------------------------------

#[test]
fn winsorize_clamps_against_a_well_posed_baseline() {
    let cfg = DiscriminationConfig::default();
    let mut baseline = MeanVar::new();
    for r in [1.0, 2.0, 3.0, 1.5, 2.5, 2.0] {
        baseline.push(r);
    }
    let hi = baseline.mean() + cfg.winsor_z * baseline.std_dev();
    let lo = baseline.mean() - cfg.winsor_z * baseline.std_dev();

    close(winsorize_separation(100.0, &baseline, &cfg), hi, 1e-9);
    close(winsorize_separation(-100.0, &baseline, &cfg), lo, 1e-9);
    // A read already inside the band passes through.
    close(winsorize_separation(2.0, &baseline, &cfg), 2.0, 1e-12);
}

#[test]
fn winsorize_passes_through_an_unposed_baseline() {
    let cfg = DiscriminationConfig::default();
    // Empty baseline.
    assert_eq!(winsorize_separation(100.0, &MeanVar::new(), &cfg), 100.0);
    // Too few observations to trust the band.
    let mut thin = MeanVar::new();
    thin.push(1.0);
    thin.push(3.0);
    assert_eq!(winsorize_separation(100.0, &thin, &cfg), 100.0);
    // Enough count but zero spread: no band to clamp to.
    let mut flat = MeanVar::new();
    for _ in 0..6 {
        flat.push(2.0);
    }
    assert_eq!(winsorize_separation(100.0, &flat, &cfg), 100.0);
}

// --- quantile helper -----------------------------------------------------------

#[test]
fn quantile_interpolates_between_order_statistics() {
    let xs = [1.0, 2.0, 3.0, 4.0, 5.0];
    close(quantile_sorted(&xs, 0.5), 3.0, 1e-12);
    close(quantile_sorted(&[0.0, 10.0], 0.1), 1.0, 1e-12);
    close(quantile_sorted(&[7.0], 0.9), 7.0, 1e-12);
}

#[test]
fn quantile_with_nonzero_fraction_interpolates_exactly() {
    // A non-integer `h` exercises the interpolation arithmetic (the existing 0.5 case
    // lands on an order statistic with frac = 0, hiding it). h = 4*0.3 = 1.2 -> lo=1,
    // frac=0.2 -> sorted[1] + 0.2*(sorted[2]-sorted[1]) = 2 + 0.2*(4-2) = 2.4.
    let xs = [1.0, 2.0, 4.0, 8.0, 16.0];
    close(quantile_sorted(&xs, 0.3), 2.4, 1e-12);
}

#[test]
fn quantile_at_p_one_returns_the_maximum() {
    // p = 1.0 is the one input that drives `lo` to `n-1`, so `lo + 1 == n`. The guard
    // `lo + 1 < n` must then take the else branch and return the last order statistic;
    // it must NOT enter the interpolation branch and index `sorted[lo + 1]` (out of
    // bounds). This pins the `<` and the `+` in `lo + 1 < n` and the `n - 1` index of
    // the else branch -- each of those mutations either flips into an out-of-bounds
    // index (panic) or returns the wrong element.
    let xs = [1.0, 2.0, 4.0, 8.0, 16.0];
    close(quantile_sorted(&xs, 1.0), 16.0, 1e-12);
    // The smallest non-trivial slice hits the same edge.
    close(quantile_sorted(&[3.0, 9.0], 1.0), 9.0, 1e-12);
}

// --- separation z-threshold, base factor, floor flag, and scale guard ----------------

#[test]
fn separation_zscore_gated_by_min_count() {
    // The within-channel z-standardization of the separation read is applied only
    // once the baseline has at least `min_count_for_z` observations; below that the
    // read is neutralized to zero and shrinkage carries the weight. A baseline
    // with count 4 (< default 5) must NOT standardize, even though its mean sits far
    // from the raw read -- so the threshold, not the z-score, decides `z_sep`.
    let cfg = DiscriminationConfig::default();
    // Four reads: count 4 < min_count_for_z (5), with spread so a z-score WOULD be
    // defined and large were the threshold bypassed.
    let separation = sep_baseline(&[-10.0, -9.0, -11.0, -10.0]);
    assert!(separation.count() < cfg.min_count_for_z);
    let d = discriminate(&scored(&spiked_pool()), &separation, &MeanVar::new(), &cfg);
    // The threshold holds: z_sep = 0, so the separation factor sits at its neutral 0.5; the
    // reference is cold so the absolute factor is neutral too, and g = 4*0.5*0.5 =
    // 1.0. Bypassing the threshold would standardize a far read and lift g well above 1.0.
    close(d.g, 1.0, 1e-9);
}

#[test]
fn thin_separation_baseline_does_not_suppress_a_backed_reference() {
    // Shrinkage is PER FACTOR: the separation baseline's thinness shrinks only
    // the separation factor, never the reference-backed absolute factor.
    let cfg = DiscriminationConfig::default();
    // separation count 2 (< 5): the separation factor is unbacked...
    let separation = MeanVar::from_prior(5.0, 1.0, 2.0);
    // ...but the reference carries count 8 (>= 5): fully backed, zscore(2.0) = 2.0.
    let reference = MeanVar::from_prior(0.0, 1.0, 8.0);
    // Pool of 20 identical 2.0s: pool_factor = 1, separation degenerate (z_sep = 0,
    // a neutral 0.5 factor regardless of lambda), s_top = 2.0 -> d_abs = 2.0.
    let d = discriminate(&scored(&[2.0; 20]), &separation, &reference, &cfg);
    let f2 = 1.0 / (1.0 + (-2.0f64).exp());
    // The absolute factor is the FULL logistic read; only separation sits neutral.
    let expected = 4.0 * 0.5 * f2;
    close(d.g, expected, 1e-9);
    // Sanity: the read is well above neutral, i.e. not suppressed.
    assert!(d.g > 1.5, "got {}", d.g);
}

#[test]
fn sub_threshold_reference_count_grades_the_absolute_factor() {
    // ref_backing = min(count / min_count_for_z, 1): a declared prior with
    // pseudo-count 2 (< 5) trusts the absolute read at exactly 2/5. The pool of 20
    // identical values fixes the separation factor to neutral and d_abs = 2, so the
    // weight is fully determined: g = 4 * 0.5 * (0.4*f(2) + 0.6*0.5). A backing of
    // `count * min_count` or `pool_factor / ref_backing` saturates the cap at 1 and
    // lands on 2*f(2) instead.
    let cfg = DiscriminationConfig::default();
    let separation = sep_baseline(&[1.0, 2.0, 3.0, 4.0, 5.0, 6.0]);
    let reference = MeanVar::from_prior(0.0, 1.0, 2.0); // pseudo-count 2 < 5
    let d = discriminate(&scored(&[2.0; 20]), &separation, &reference, &cfg);
    let f2 = 1.0 / (1.0 + (-2.0f64).exp());
    let expected = 4.0 * 0.5 * (0.4 * f2 + 0.6 * 0.5);
    close(d.g, expected, 1e-9);
    // Sanity: strictly between neutral and the fully-backed read.
    assert!(d.g > 1.0 && d.g < 4.0 * 0.5 * f2);
}

#[test]
fn declared_reference_carries_the_channel_at_cold_start() {
    // A declared good-score reference is the one quantity that can carry the channel
    // before any data arrives. With a stone-cold separation baseline, a
    // flat-low nothing-matches pool must be down-weighted (D^abs strongly negative)
    // and a flat-high everything-matches pool up-weighted, from the very first query.
    let cfg = DiscriminationConfig::default();
    let reference = ref_baseline(0.30, 0.07, 8.0); // declared: mu 0.30, sigma 0.07
    let cold_separation = MeanVar::new();

    // 30 distinct values so separation is defined; far below the reference.
    let low: Vec<f64> = (0..30).map(|i| 0.02 + 0.001 * i as f64).collect();
    let d_low = discriminate(&scored(&low), &cold_separation, &reference, &cfg);
    assert!(
        d_low.g < 0.5,
        "nothing-matches must be down-weighted at cold start, got {}",
        d_low.g
    );

    // The same shape shifted far above the reference.
    let high: Vec<f64> = low.iter().map(|x| x + 0.60).collect();
    let d_high = discriminate(&scored(&high), &cold_separation, &reference, &cfg);
    assert!(
        d_high.g > 1.5,
        "everything-matches must be up-weighted at cold start, got {}",
        d_high.g
    );
}

#[test]
fn shallow_pool_exports_no_reference_read() {
    // A pool shallower than top_m cannot produce the fixed-count top-m average, so
    // nothing is exported for reference refinement;
    // the absolute term for the current query is still read from the available top.
    let cfg = DiscriminationConfig::default(); // top_m = 10
    let reference = ref_baseline(0.0, 1.0, 8.0);
    let d = discriminate(&scored(&[1.0, 2.0, 3.0]), &MeanVar::new(), &reference, &cfg);
    assert_eq!(d.top_m_average, None, "no fixed-count read from 3 items");
    assert!(!d.reference_cold, "the reference itself is warm");
    // At exactly top_m items the fixed-count read is defined again.
    let pool: Vec<f64> = (0..10).map(|i| i as f64).collect();
    let d10 = discriminate(&scored(&pool), &MeanVar::new(), &reference, &cfg);
    assert!(d10.top_m_average.is_some());
}

#[test]
fn floor_equal_to_bulk_gap_is_not_flagged_floored() {
    // The degeneracy floor is "applied" only when it is STRICTLY greater than the bulk
    // gap (`floor > bulk_gap`): at exact equality the bulk gap already supplies the
    // denominator, so nothing was widened and the read is not flagged floored. This
    // pool is built so q50-q10 == 0.5*(q75-q25) exactly. (With `>=` the read would be
    // wrongly flagged degenerate at the boundary.)
    //
    // n = 21 makes the 10/25/50/75th percentiles land on integer indices 2/5/10/15
    // (frac = 0), so the quantiles are exact order statistics: q10=0, q25=5, q50=10,
    // q75=25 -> bulk_gap = 10, floor = 0.5*(25-5) = 10. The fraction is pinned to
    // 0.5 because the pool is constructed for that exact-equality boundary.
    let pool = [
        0.0, 0.0, 0.0, 2.0, 4.0, 5.0, 6.0, 7.0, 8.0, 9.0, 10.0, 13.0, 16.0, 19.0, 22.0, 25.0,
        26.0, 27.0, 28.0, 29.0, 30.0,
    ];
    let cfg = DiscriminationConfig {
        denom_floor_frac: 0.5,
        ..Default::default()
    };
    let d = discriminate(&scored(&pool), &MeanVar::new(), &MeanVar::new(), &cfg);
    assert!(d.raw_separation.is_some());
    assert!(
        !d.degenerate_separation,
        "floor == bulk_gap means nothing was widened; not floored"
    );
}

#[test]
fn scale_collapse_guard_uses_the_bulk_span() {
    // The degeneracy guard compares the floored denominator against the BULK's own
    // span `q0.75 - q0.10`, a difference of quantiles. A pool tightly clustered far
    // above zero has a real (if small) bulk shape, so the read is defined; were the
    // guard to use a sum of quantiles, the huge offset would dwarf the denominator
    // and the pool would be wrongly declared degenerate. Large-offset scores are
    // ordinary (unnormalized BM25, log-odds), so this pins the subtraction.
    let pool: Vec<f64> = (0..40).map(|i| 1.0e9 + 0.01 * i as f64).collect();
    let d = discriminate(
        &scored(&pool),
        &MeanVar::new(),
        &MeanVar::new(),
        &DiscriminationConfig::default(),
    );
    assert!(
        d.raw_separation.is_some(),
        "a clustered-but-shaped pool far from zero must read, got None"
    );
    assert!(!d.degenerate_separation);
}

#[test]
fn extreme_top_elevation_is_not_read_as_degenerate() {
    // The guard's comparison scale is the bulk span, NOT the pool's full range: a
    // top standing astronomically above a perfectly healthy bulk is the most
    // informative shape there is, and must read as a (huge) separation, not as
    // degeneracy.
    let mut pool: Vec<f64> = (0..40).map(|i| i as f64 * 0.025).collect(); // bulk [0, 1)
    pool.push(1.0e10);
    pool.push(1.0e10);
    let d = discriminate(
        &scored(&pool),
        &MeanVar::new(),
        &MeanVar::new(),
        &DiscriminationConfig::default(),
    );
    let sep = d
        .raw_separation
        .expect("an enormously separated pool must read");
    assert!(sep > 1.0e6, "got {sep}");
    assert!(!d.degenerate_separation);
}

#[test]
fn winsorize_clamps_at_exactly_min_count_for_z() {
    // The pass-through applies only BELOW min_count_for_z; a baseline with count
    // exactly at the threshold is well-posed and must clamp (boundary `count <
    // min_count_for_z`, not `<=`).
    let cfg = DiscriminationConfig::default(); // min_count_for_z = 5.0
    let mut baseline = MeanVar::new();
    for r in [1.0, 2.0, 3.0, 4.0, 5.0] {
        baseline.push(r);
    }
    close(baseline.count(), cfg.min_count_for_z, 1e-12);
    let hi = baseline.mean() + cfg.winsor_z * baseline.std_dev();
    // A read far above the band is clamped to `hi`, not passed through unchanged.
    let clamped = winsorize_separation(100.0, &baseline, &cfg);
    close(clamped, hi, 1e-9);
    assert!(clamped < 100.0);
}

// --- level_shrunk: own-level normalization and deviation shrink ---

/// A level baseline seeded to a chosen mean with enough backing to pass the threshold.
fn level_at(mean: f64) -> MeanVar {
    MeanVar::from_prior(mean, 0.01, 10.0)
}

#[test]
fn level_shrunk_cold_baseline_shrinks_the_raw_deviation() {
    // Below the evidence threshold the raw g passes through unnormalized, and only the
    // deviation shrink applies: the conservative direction while the level warms.
    let cfg = DiscriminationConfig {
        g_deviation_keep: 0.6,
        ..DiscriminationConfig::default()
    };
    let cold = MeanVar::new();
    close(level_shrunk(1.5, &cold, &cfg), 1.3, 1e-12);
    close(level_shrunk(1.0, &cold, &cfg), 1.0, 1e-12);
}

#[test]
fn level_shrunk_warm_baseline_divides_then_shrinks() {
    let cfg = DiscriminationConfig {
        g_deviation_keep: 0.6,
        ..DiscriminationConfig::default()
    };
    // 1.5 / 1.25 = 1.2, then 1 + 0.6 * 0.2 = 1.12.
    close(level_shrunk(1.5, &level_at(1.25), &cfg), 1.12, 1e-12);
    // A channel reading exactly at its own level is exactly neutral: the persistent
    // shape tilt is gone by construction.
    close(level_shrunk(1.25, &level_at(1.25), &cfg), 1.0, 1e-12);
}

#[test]
fn level_shrunk_keep_endpoints() {
    // keep = 0 reduces the weighting to plain RRF; keep = 1 uses the normalized
    // deviation as is.
    let zero = DiscriminationConfig {
        g_deviation_keep: 0.0,
        ..DiscriminationConfig::default()
    };
    close(level_shrunk(3.7, &level_at(0.9), &zero), 1.0, 1e-12);
    let one = DiscriminationConfig {
        g_deviation_keep: 1.0,
        ..DiscriminationConfig::default()
    };
    close(level_shrunk(1.8, &level_at(1.2), &one), 1.5, 1e-12);
}

#[test]
fn level_shrunk_reapplies_floor_and_cap() {
    let cfg = DiscriminationConfig {
        g_deviation_keep: 1.0,
        ..DiscriminationConfig::default()
    };
    // A tiny hand-authored level blows the ratio up; the cap holds.
    close(level_shrunk(4.0, &level_at(0.05), &cfg), cfg.g_upper_bound, 1e-12);
    // A huge one collapses it; the floor holds.
    close(level_shrunk(0.25, &level_at(100.0), &cfg), cfg.g_floor, 1e-12);
}

#[test]
fn level_shrunk_nonpositive_or_nonfinite_mean_passes_raw_through() {
    // Only reachable through a hand-authored state; the read degrades to the cold
    // path (raw g, deviation shrink) rather than dividing by a junk level.
    let cfg = DiscriminationConfig {
        g_deviation_keep: 0.5,
        ..DiscriminationConfig::default()
    };
    close(level_shrunk(1.4, &level_at(0.0), &cfg), 1.2, 1e-12);
    close(level_shrunk(1.4, &level_at(-2.0), &cfg), 1.2, 1e-12);
    close(level_shrunk(1.4, &level_at(f64::NAN), &cfg), 1.2, 1e-12);
}

#[test]
fn a_cold_channel_is_neutral_to_the_last_bit() {
    let mut rng_like = 12345u64;
    for n in [8usize, 9, 13, 17, 19, 20, 21, 50] {
        let pool: Vec<f64> = (0..n)
            .map(|i| {
                rng_like = rng_like.wrapping_mul(6364136223846793005).wrapping_add(1);
                i as f64 + (rng_like >> 40) as f64 * 1e-9
            })
            .collect();
        let r = discriminate(
            &scored(&pool),
            &MeanVar::new(),
            &MeanVar::new(),
            &DiscriminationConfig::default(),
        );
        assert_eq!(r.g, 1.0, "pool of {n}");
    }
}

#[test]
fn the_separation_ratio_is_computed_as_documented() {
    // Twenty-one evenly spaced scores: quantiles fall on order statistics.
    let pool: Vec<f64> = (0..21).map(|i| i as f64).collect();
    let r = discriminate(
        &scored(&pool),
        &MeanVar::new(),
        &MeanVar::new(),
        &DiscriminationConfig::default(),
    );
    // Top three of twenty-one: mean 19; median 10; gap 10 - 2 = 8, floor 0.75 * 10 = 7.5.
    assert_eq!(r.raw_separation, Some((19.0 - 10.0) / 8.0));
    assert!(!r.degenerate_separation);
    // Top ten: mean of 11..=20.
    assert_eq!(r.top_m_average, Some(15.5));
    assert!(r.reference_cold);
}

#[test]
fn a_reading_maps_to_its_discrimination_given_the_exponentials() {
    let scores: Vec<Double> = (0..40).map(|i| d(i as f64 * 0.5)).collect();
    let mut separation = MeanVar::new();
    for x in [1.0, 1.2, 0.9, 1.1, 1.3, 0.8] {
        separation.push(x);
    }
    let reference = MeanVar::from_prior(10.0, 4.0, 6.0);
    let cfg = DiscriminationConfig::default().soft();
    let r = lib::read_pool(&scores, &separation.0, &reference.0, &cfg);
    let z_sep = f(r.separation_z);
    let z_good = f(r.goodness_z.unwrap());
    let (e1, e2) = (libm::exp(-z_sep), libm::exp(-z_good));
    let out = lib::discriminate_with(&r, &cfg, d(e1), d(e2));
    let expected = (4.0 * (1.0 * (1.0 / (1.0 + e1)) + 0.0 * 0.5) * (1.0 * (1.0 / (1.0 + e2)) + 0.0 * 0.5))
        .min(4.0)
        .max(0.25);
    assert_eq!(f(out.g), expected);
    let whole = lib::discriminate(
        &Items::Scored(scores.iter().enumerate().map(|(i, x)| (i as u32, *x)).collect()),
        &separation.0,
        &reference.0,
        &cfg,
        &exp,
    );
    assert_eq!(out, whole);
}

#[test]
fn weights_stay_between_floor_and_cap() {
    let cfg = DiscriminationConfig::default();
    for a in [f64::NAN, -1.0, 0.0, 0.3, 1.0, f64::INFINITY] {
        for b in [f64::NAN, -1.0, 0.0, 0.3, 1.0, f64::INFINITY] {
            let g = combine(a, b, &cfg);
            assert!(g >= cfg.g_floor && g <= cfg.g_upper_bound, "{a}, {b}: {g}");
        }
    }
}

#[test]
fn winsorize_passes_through_a_band_without_order() {
    // A baseline whose mean is not a number has no band around it.
    let mut odd = MeanVar::from_prior(1.0, 1.0, 10.0);
    odd.0.mean = d(f64::NAN);
    assert_eq!(winsorize_separation(7.0, &odd, &DiscriminationConfig::default()), 7.0);
}

#[test]
fn distinct_values_are_counted_by_value() {
    let s: Vec<Double> = [-1.0, -0.0, 0.0, 2.0, 2.0, 3.0].iter().map(|x| d(*x)).collect();
    assert_eq!(lib::count_distinct(&s), 4);
    assert_eq!(lib::count_distinct(&s[..1]), 1);
}

#[test]
fn separation_is_the_same_in_units_of_any_power_of_two() {
    let pool = spiked_pool();
    let raw = raw_sep_of(&pool);
    for k in [-200, -10, -1, 1, 3, 64, 300] {
        let unit = 2f64.powi(k);
        let moved: Vec<f64> = pool.iter().map(|x| x * unit).collect();
        assert_eq!(raw_sep_of(&moved).to_bits(), raw.to_bits());
    }
}
