use rand::{RngCore, SeedableRng};
use rand_chacha::ChaCha8Rng;
use ruffle::weighting::coupling::SIXTH_OF_PI_BITS;
use ruffle::Double;

fn d(x: f64) -> Double {
    Double::from_bits(x.to_bits())
}

fn same(soft: Double, native: f64, what: &str) {
    if native.is_nan() {
        assert!(soft.is_nan(), "{what}: expected a nan, got {:x}", soft.to_bits());
    } else {
        assert_eq!(soft.to_bits(), native.to_bits(), "{what}");
    }
}

fn corners() -> Vec<f64> {
    let mut v = vec![
        0.0,
        1.0,
        1.5,
        2.0,
        3.0,
        0.1,
        0.5,
        1.0 / 3.0,
        f64::MIN_POSITIVE,
        f64::MIN_POSITIVE / 2.0,
        5e-324,
        1e-310,
        1e-320,
        f64::MAX,
        f64::MAX / 2.0,
        1e308,
        1e154,
        1e-154,
        9007199254740991.0,
        9007199254740992.0,
        9007199254740993.0,
        1.0 + f64::EPSILON,
        1.0 - f64::EPSILON / 2.0,
        f64::INFINITY,
        f64::NAN,
        60.0,
        1e9,
    ];
    let negatives: Vec<f64> = v.iter().map(|x| -x).collect();
    v.extend(negatives);
    v
}

fn check_pair(a: f64, b: f64) {
    let (x, y) = (d(a), d(b));
    same(x + y, a + b, &format!("{a:e} + {b:e}"));
    same(x - y, a - b, &format!("{a:e} - {b:e}"));
    same(x * y, a * b, &format!("{a:e} * {b:e}"));
    same(x / y, a / b, &format!("{a:e} / {b:e}"));
    same(x.sqrt(), a.sqrt(), &format!("sqrt {a:e}"));
    assert_eq!(x.lt(y), a < b, "{a:e} < {b:e}");
    assert_eq!(x.le(y), a <= b, "{a:e} <= {b:e}");
    assert_eq!(x == y, a == b, "{a:e} == {b:e}");
    assert_eq!(x.is_finite(), a.is_finite());
    assert_eq!(x.is_nan(), a.is_nan());
    same(x.abs(), a.abs(), "abs");
    same(x.negated(), -a, "neg");
    if a != 0.0 || b != 0.0 {
        same(x.min(y), a.min(b), "min");
        same(x.max(y), a.max(b), "max");
    }
    if b <= 1.0 {
        same(x.clamp(y, d(1.0)), a.clamp(b, 1.0), "clamp");
    }
    assert_eq!(x.floor_count(), a.floor() as usize, "floor {a:e}");
    assert_eq!(x.ceil_count(), a.ceil() as usize, "ceil {a:e}");
}

#[test]
fn arithmetic_on_corners_matches_the_machine() {
    let v = corners();
    for &a in &v {
        for &b in &v {
            check_pair(a, b);
        }
    }
}

#[test]
fn arithmetic_on_random_encodings_matches_the_machine() {
    let mut rng = ChaCha8Rng::seed_from_u64(7);
    for _ in 0..40_000 {
        let a = f64::from_bits(rng.next_u64());
        let b = f64::from_bits(rng.next_u64());
        check_pair(a, b);
    }
}

#[test]
fn arithmetic_on_near_magnitudes_matches_the_machine() {
    // Exponents close together: cancellation, alignment and ties.
    let mut rng = ChaCha8Rng::seed_from_u64(11);
    for _ in 0..40_000 {
        let e = 1000 + rng.next_u64() % 80;
        let s = rng.next_u64() & (1 << 63);
        let a = f64::from_bits((e << 52) | (rng.next_u64() >> 12));
        let t = 1000 + rng.next_u64() % 80;
        let mask = u64::MAX << (rng.next_u64() % 52);
        let b = f64::from_bits(s | (t << 52) | ((rng.next_u64() >> 12) & mask));
        check_pair(a, b);
    }
}

#[test]
fn arithmetic_near_the_subnormal_range_matches_the_machine() {
    let mut rng = ChaCha8Rng::seed_from_u64(13);
    for _ in 0..40_000 {
        let a = f64::from_bits(((rng.next_u64() % 120) << 52) | (rng.next_u64() >> 12));
        let b = f64::from_bits(((900 + rng.next_u64() % 200) << 52) | (rng.next_u64() >> 12));
        check_pair(a, b);
        check_pair(b, a);
    }
}

#[test]
fn counts_and_ratios_match_the_machine() {
    for n in [0usize, 1, 2, 3, 7, 60, 1 << 53, (1 << 53) + 1, usize::MAX, usize::MAX - 1] {
        same(Double::of_count(n), n as f64, "count");
    }
    same(Double::of_sum(3, 4), 7.0, "sum");
    same(Double::of_sum(usize::MAX, usize::MAX), 36893488147419103232.0, "sum");
    same(Double::ratio(1, 10), 0.10, "ratio");
    same(Double::ratio(98, 100), 0.98, "ratio");
    same(Double::ratio(1, 1_000_000_000), 1e-9, "ratio");
    same(Double::ratio(3, 4), 0.75, "ratio");
    same(Double::zero(), 0.0, "zero");
    same(Double::one(), 1.0, "one");
    assert_eq!(SIXTH_OF_PI_BITS, std::f64::consts::FRAC_PI_6.to_bits());
}

#[test]
fn the_order_of_summands_and_factors_does_not_matter() {
    for &a in &corners() {
        for &b in &corners() {
            assert_eq!((d(a) + d(b)).to_bits(), (d(b) + d(a)).to_bits());
            assert_eq!((d(a) * d(b)).to_bits(), (d(b) * d(a)).to_bits());
        }
    }
}

#[test]
fn a_share_and_its_complement_add_up_to_one() {
    let mut rng = ChaCha8Rng::seed_from_u64(17);
    for _ in 0..2_000 {
        let l = (rng.next_u64() >> 11) as f64 / (1u64 << 53) as f64;
        let x = d(l);
        assert_eq!(x + (Double::one() - x), Double::one());
        let half = Double::ratio(1, 2);
        assert_eq!(x * half + (Double::one() - x) * half, half);
    }
}
