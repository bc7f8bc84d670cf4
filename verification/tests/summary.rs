use rand::SeedableRng;
use rand_chacha::ChaCha8Rng;
use rand_distr::{Distribution, Normal};
use ruffle::{Double, MeanVar};

fn d(x: f64) -> Double {
    Double::from_bits(x.to_bits())
}

fn f(x: Double) -> f64 {
    f64::from_bits(x.to_bits())
}

fn close(a: f64, b: f64, eps: f64) {
    assert!((a - b).abs() <= eps, "{a} is not within {eps} of {b}");
}

fn prior(mean: f64, variance: f64, count: f64) -> MeanVar {
    MeanVar::from_prior(d(mean), d(variance), d(count))
}

/// Population mean and variance computed directly (two-pass) for reference.
fn batch_mean_var(xs: &[f64]) -> (f64, f64) {
    let n = xs.len() as f64;
    let mean = xs.iter().sum::<f64>() / n;
    let var = xs.iter().map(|x| (x - mean).powi(2)).sum::<f64>() / n;
    (mean, var)
}

fn from_slice(xs: &[f64]) -> MeanVar {
    let mut mv = MeanVar::new();
    for &x in xs {
        mv.push(d(x));
    }
    mv
}

#[test]
fn merge_is_commutative() {
    let a = from_slice(&[1.0, 2.0, 3.0, 4.0]);
    let b = from_slice(&[10.0, 11.0, 9.0]);
    let ab = MeanVar::merge(&a, &b);
    let ba = MeanVar::merge(&b, &a);
    close(f(ab.count()), f(ba.count()), 1e-9);
    close(f(ab.mean()), f(ba.mean()), 1e-9);
    close(f(ab.variance()), f(ba.variance()), 1e-9);
    // Count and squared deviation commute to the last bit.
    assert_eq!(ab.count.to_bits(), ba.count.to_bits());
    assert_eq!(ab.m2.to_bits(), ba.m2.to_bits());
}

#[test]
fn merge_is_associative() {
    let a = from_slice(&[1.0, 2.0, 3.0]);
    let b = from_slice(&[10.0, 12.0]);
    let c = from_slice(&[100.0, 101.0, 102.0, 103.0]);
    let left = MeanVar::merge(&MeanVar::merge(&a, &b), &c);
    let right = MeanVar::merge(&a, &MeanVar::merge(&b, &c));
    close(f(left.count()), f(right.count()), 1e-9);
    close(f(left.mean()), f(right.mean()), 1e-9);
    close(f(left.variance()), f(right.variance()), 1e-9);
}

#[test]
fn streaming_equals_batch() {
    let xs = [3.1, 4.1, 5.9, 2.6, 5.3, 5.8, 9.7, 9.3];
    let mv = from_slice(&xs);
    let (mean, var) = batch_mean_var(&xs);
    close(f(mv.count()), xs.len() as f64, 1e-9);
    close(f(mv.mean()), mean, 1e-9);
    close(f(mv.variance()), var, 1e-9);
}

#[test]
fn merging_count_one_summaries_equals_pushing() {
    let xs = [2.0, 4.0, 6.0, 8.0, 10.0, 12.0];
    let pushed = from_slice(&xs);

    // Merge a bag of count-1 summaries in a different order.
    let singles: Vec<MeanVar> = xs
        .iter()
        .map(|&x| MeanVar {
            count: d(1.0),
            mean: d(x),
            m2: d(0.0),
        })
        .collect();
    let mut merged = MeanVar::new();
    for s in singles.iter().rev() {
        merged = MeanVar::merge(&merged, s);
    }

    close(f(merged.count()), f(pushed.count()), 1e-9);
    close(f(merged.mean()), f(pushed.mean()), 1e-9);
    close(f(merged.variance()), f(pushed.variance()), 1e-9);
}

#[test]
fn from_prior_shifts_at_one_over_n0_plus_n() {
    // A prior centred at m0 with pseudo-count n0; one observation x moves the mean by
    // (x - m0) / (n0 + 1).
    let m0 = 0.35;
    let n0 = 9.0;
    let x = 0.95;
    let mut mv = prior(m0, 0.01, n0);
    close(f(mv.count()), n0, 1e-12);
    close(f(mv.mean()), m0, 1e-12);
    mv.push(d(x));
    let expected = m0 + (x - m0) / (n0 + 1.0);
    close(f(mv.mean()), expected, 1e-12);
    close(f(mv.count()), n0 + 1.0, 1e-12);
}

#[test]
fn from_prior_recovers_declared_variance() {
    let mv = prior(0.35, 0.0049, 9.0);
    close(f(mv.variance()), 0.0049, 1e-12);
    close(f(mv.std_dev()), 0.07, 1e-9);
}

#[test]
fn from_prior_rejects_degenerate_inputs() {
    assert_eq!(prior(1.0, 1.0, 0.0), MeanVar::new());
    assert_eq!(prior(1.0, 1.0, -3.0), MeanVar::new());
    assert_eq!(prior(f64::NAN, 1.0, 1.0), MeanVar::new());
    assert_eq!(prior(1.0, f64::INFINITY, 1.0), MeanVar::new());
}

#[test]
fn decay_halves_count_and_preserves_mean_and_variance() {
    let xs = [1.0, 2.0, 3.0, 4.0, 5.0, 6.0];
    let mut mv = from_slice(&xs);
    let (mean0, var0, count0) = (f(mv.mean()), f(mv.variance()), f(mv.count()));
    mv.decay(d(0.5));
    close(f(mv.count()), count0 * 0.5, 1e-12);
    close(f(mv.mean()), mean0, 1e-12);
    close(f(mv.variance()), var0, 1e-12);
}

#[test]
fn decay_clamps_factor() {
    let mut mv = from_slice(&[1.0, 2.0, 3.0]);
    let c = f(mv.count());
    mv.decay(d(2.0)); // clamps to 1.0
    close(f(mv.count()), c, 1e-12);
    mv.decay(d(-1.0)); // clamps to 0.0
    close(f(mv.count()), 0.0, 1e-12);
}

#[test]
fn decay_treats_non_finite_factor_as_zero() {
    let mut mv = from_slice(&[1.0, 2.0, 3.0]);
    mv.decay(d(f64::NAN));
    close(f(mv.count()), 0.0, 1e-12);
}

#[test]
fn default_equals_new() {
    assert_eq!(MeanVar::default(), MeanVar::new());
}

#[test]
fn numerically_stable_at_large_offset() {
    // One million values at a large offset with unit-scale noise. The naive single-pass
    // formula E[x²] - E[x]² catastrophically cancels here; the pooled one does not.
    let offset = 1.0e9_f64;
    let n = 1_000_000usize;
    let mut rng = ChaCha8Rng::seed_from_u64(0x0FFE_u64);
    let normal = Normal::new(0.0, 1.0).unwrap();

    let mut mv = MeanVar::new();
    let mut data_mean_acc = 0.0f64;
    let mut samples: Vec<f64> = Vec::with_capacity(n);
    for _ in 0..n {
        let noise: f64 = normal.sample(&mut rng);
        let x = offset + noise;
        mv.push(d(x));
        data_mean_acc += x;
        samples.push(x);
    }

    // Two-pass reference variance.
    let ref_mean = data_mean_acc / n as f64;
    let ref_var = samples.iter().map(|x| (x - ref_mean).powi(2)).sum::<f64>() / n as f64;

    close(f(mv.variance()), ref_var, 1e-3);
    assert!(
        (f(mv.variance()) - 1.0).abs() < 0.02,
        "variance should be ~1.0, got {}",
        f(mv.variance())
    );

    // The naive formula fails: accumulate Σx² and form E[x²]-E[x]².
    let sum: f64 = samples.iter().sum();
    let sum_sq: f64 = samples.iter().map(|x| x * x).sum();
    let naive_var = sum_sq / n as f64 - (sum / n as f64).powi(2);
    assert!(
        (naive_var - 1.0).abs() > 0.1,
        "naive single-pass variance should be badly wrong at this offset, got {naive_var}"
    );
}

#[test]
fn zscore_guards_against_degenerate_baselines() {
    // Empty: count 0.
    assert_eq!(MeanVar::new().zscore(d(1.0)), None);

    // One streaming observation: count 1, zero variance.
    let mut one = MeanVar::new();
    one.push(d(5.0));
    assert_eq!(one.zscore(d(7.0)), None);

    // Many identical values: positive count, zero variance.
    let flat = from_slice(&[3.0, 3.0, 3.0, 3.0]);
    assert_eq!(flat.zscore(d(3.0)), None);
    assert_eq!(flat.zscore(d(9.0)), None);
}

#[test]
fn zscore_returns_none_for_non_finite_std() {
    // A declared prior with an enormous variance overflows to an infinite deviation, which
    // has no usable scale.
    let mv = prior(0.0, f64::MAX, 2.0);
    assert!(
        !mv.std_dev().is_finite(),
        "an overflowed variance should give a non-finite deviation"
    );
    assert_eq!(mv.zscore(d(0.5)), None);
}

#[test]
fn zscore_is_finite_and_correct_when_well_posed() {
    let mv = from_slice(&[1.0, 2.0, 3.0, 4.0, 5.0]);
    // mean = 3, population variance = 2, std = sqrt(2).
    let z = mv.zscore(d(3.0 + 2.0f64.sqrt())).unwrap();
    close(f(z), 1.0, 1e-9);
    assert!(mv.zscore(d(100.0)).unwrap().is_finite());
}

#[test]
fn zscore_works_from_declared_prior_at_low_count() {
    // A declared reference (positive variance) standardizes from the first query even at
    // count 1.
    let mv = prior(0.35, 0.0049, 1.0);
    let z = mv.zscore(d(0.49)).unwrap(); // (0.49 - 0.35) / 0.07 = 2.0
    close(f(z), 2.0, 1e-9);
}

#[test]
fn empty_merge_is_identity() {
    let a = from_slice(&[2.0, 4.0, 6.0]);
    let e = MeanVar::new();
    let left = MeanVar::merge(&e, &a);
    let right = MeanVar::merge(&a, &e);
    close(f(left.mean()), f(a.mean()), 1e-12);
    close(f(left.variance()), f(a.variance()), 1e-12);
    close(f(right.mean()), f(a.mean()), 1e-12);
    close(f(right.variance()), f(a.variance()), 1e-12);
}

#[test]
fn empty_merge_is_identity_at_any_magnitude() {
    // The squared difference of the means would overflow here.
    let a = prior(1e200, 4.0, 3.0);
    let e = MeanVar::new();
    assert_eq!(MeanVar::merge(&e, &a), a);
    assert_eq!(MeanVar::merge(&a, &e), a);
}

#[test]
fn variance_is_never_negative_or_undefined() {
    let odd = [0.0, 1.0, -1.0, f64::NAN, f64::INFINITY, f64::NEG_INFINITY];
    for count in odd {
        for m2 in odd {
            let mv = MeanVar {
                count: d(count),
                mean: d(0.0),
                m2: d(m2),
            };
            assert!(f(mv.variance()) >= 0.0, "count {count}, m2 {m2}");
        }
    }
}

#[test]
fn push_ignores_values_that_are_not_finite() {
    let mut mv = from_slice(&[1.0, 2.0]);
    let before = mv;
    mv.push(d(f64::NAN));
    mv.push(d(f64::INFINITY));
    assert_eq!(mv, before);
    mv.push(d(3.0));
    assert_eq!(f(mv.mean()), 2.0);
    assert_eq!(f(mv.count()), 3.0);
    assert_eq!(f(mv.m2), 2.0);
}

#[test]
fn merging_two_summaries_is_pushing_all_observations() {
    let xs = [0.5, -1.25, 3.0, 8.5, 2.0];
    let ys = [100.0, 0.125, -7.0];
    let merged = MeanVar::merge(&from_slice(&xs), &from_slice(&ys));
    let all: Vec<f64> = xs.iter().chain(ys.iter()).copied().collect();
    let pushed = from_slice(&all);
    assert_eq!(merged.count.to_bits(), pushed.count.to_bits());
    close(f(merged.mean()), f(pushed.mean()), 1e-12);
    close(f(merged.variance()), f(pushed.variance()), 1e-9);
    let (mean, variance) = batch_mean_var(&all);
    close(f(merged.mean()), mean, 1e-12);
    close(f(merged.variance()), variance, 1e-9);
}

#[test]
fn fractional_counts_merge_alike_in_any_order() {
    let a = prior(0.3, 0.04, 2.5);
    let b = prior(-1.5, 0.7, 0.125);
    let mut c = from_slice(&[0.1, 0.9, 0.4, 0.6]);
    c.decay(d(0.3));
    let one = MeanVar::merge(&MeanVar::merge(&a, &b), &c);
    let two = MeanVar::merge(&c, &MeanVar::merge(&b, &a));
    let three = MeanVar::merge(&b, &MeanVar::merge(&a, &c));
    for s in [two, three] {
        close(f(s.count()), f(one.count()), 1e-14);
        close(f(s.mean()), f(one.mean()), 1e-14);
        close(f(s.variance()), f(one.variance()), 1e-14);
    }
    close(f(one.count()), 2.5 + 0.125 + 1.2, 1e-14);
}

#[test]
fn decay_keeps_mean_and_variance_for_any_factor() {
    let s = from_slice(&[1.0, 4.5, -2.0, 0.75, 3.0]);
    for factor in [0.3, 0.7, 0.999, 1e-3] {
        let mut t = s;
        t.decay(d(factor));
        assert_eq!(t.mean().to_bits(), s.mean().to_bits());
        close(f(t.variance()) / f(s.variance()), 1.0, 3e-15);
        close(f(t.count()), 5.0 * factor, 1e-15);
    }
}
