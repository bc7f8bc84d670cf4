use ruffle::score::{orient, sanitize, OrientedReference};
use ruffle::{Direction, Double, GoodScore, Score};

fn d(x: f64) -> Double {
    Double::from_bits(x.to_bits())
}

fn f(x: Double) -> f64 {
    f64::from_bits(x.to_bits())
}

// A caller-side newtype: the only way a bare number becomes a Score.
struct Raw(f64);
impl Score for Raw {
    fn value(&self) -> Double {
        d(self.0)
    }
}

fn good(typical: f64, good: f64, weight: f64) -> GoodScore {
    GoodScore::new(d(typical), d(good), d(weight))
}

#[test]
fn newtype_is_required_for_score() {
    assert_eq!(f(Raw(0.5).value()), 0.5);
}

#[test]
fn orient_passes_higher_through() {
    assert_eq!(f(orient(Direction::HigherIsBetter, d(3.0))), 3.0);
    assert_eq!(f(orient(Direction::HigherIsBetter, d(-2.0))), -2.0);
}

#[test]
fn orient_negates_lower() {
    assert_eq!(f(orient(Direction::LowerIsBetter, d(3.0))), -3.0);
    assert_eq!(f(orient(Direction::LowerIsBetter, d(-2.0))), 2.0);
}

#[test]
fn sanitize_drops_non_finite() {
    assert_eq!(sanitize(d(1.5)), Some(d(1.5)));
    assert_eq!(sanitize(d(0.0)), Some(d(0.0)));
    assert_eq!(sanitize(d(f64::NAN)), None);
    assert_eq!(sanitize(d(f64::INFINITY)), None);
    assert_eq!(sanitize(d(f64::NEG_INFINITY)), None);
}

#[test]
fn good_score_oriented_higher_is_better() {
    let gs = good(0.3, 0.5, 4.0);
    let OrientedReference { mu_ref, sigma_ref } = gs.oriented(Direction::HigherIsBetter).unwrap();
    assert_eq!(f(mu_ref), 0.3);
    assert!((f(sigma_ref) - 0.1).abs() < 1e-12);
}

#[test]
fn good_score_oriented_lower_is_better_negates_anchors() {
    // A good match is a smaller native score: good < typical natively, but after negation
    // good > typical and sigma > 0.
    let gs = good(0.5, 0.3, 4.0);
    let OrientedReference { mu_ref, sigma_ref } = gs.oriented(Direction::LowerIsBetter).unwrap();
    assert_eq!(f(mu_ref), -0.5);
    assert!((f(sigma_ref) - 0.1).abs() < 1e-12);
}

#[test]
fn good_score_rejects_non_positive_sigma() {
    // good == typical after orientation -> sigma == 0 -> None.
    let flat = good(0.4, 0.4, 1.0);
    assert_eq!(flat.oriented(Direction::HigherIsBetter), None);

    // good < typical after orientation -> sigma < 0 -> None.
    let inverted = good(0.5, 0.3, 1.0);
    assert_eq!(inverted.oriented(Direction::HigherIsBetter), None);

    // Anchors stated as if higher were better negate to sigma < 0 -> None.
    let mis = good(0.3, 0.5, 1.0);
    assert_eq!(mis.oriented(Direction::LowerIsBetter), None);
}

#[test]
fn good_score_rejects_non_finite_anchors() {
    let bad = good(f64::NAN, 0.5, 1.0);
    assert_eq!(bad.oriented(Direction::HigherIsBetter), None);
}

#[test]
fn orienting_twice_gives_the_score_back() {
    for x in [0.0, -0.0, 1.5, -2.25, 1e300, -5e-324] {
        for dir in [Direction::HigherIsBetter, Direction::LowerIsBetter] {
            assert_eq!(orient(dir, orient(dir, d(x))).to_bits(), x.to_bits());
        }
    }
}
