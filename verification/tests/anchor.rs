use ruffle::{Anchor, ChannelConfig, ChannelId, Direction, Double, Score};

fn d(x: f64) -> Double {
    Double::from_bits(x.to_bits())
}

/// A caller-side newtype: the only way a bare number becomes a [`Score`].
struct Val(f64);
impl Score for Val {
    fn value(&self) -> Double {
        d(self.0)
    }
}

fn channel(key: &str, dir: Direction) -> ChannelConfig {
    ChannelConfig::new(ChannelId::new(key, "tag"), dir, None)
}

#[test]
fn build_covers_every_candidate_and_channel() {
    let cands: Vec<usize> = (0..5).collect();
    let a = channel("a", Direction::HigherIsBetter);
    let b = channel("b", Direction::HigherIsBetter);
    let anchor = Anchor::build(&cands, &[&a, &b], |id, _key| Some(Val(*id as f64)));
    // Two channels, each a full row over the five candidates.
    assert_eq!(anchor.channels.len(), 2);
    assert_eq!(anchor.scores.len(), 2);
    assert!(anchor.scores.iter().all(|row| row.len() == 5));
    // Every entry present (nothing truncated).
    assert!(anchor.scores.iter().flatten().all(|s| s.is_some()));
}

#[test]
fn lower_is_better_channel_is_negated_at_ingest() {
    let cands = vec![0usize];
    let lo = channel("lo", Direction::LowerIsBetter);
    let anchor = Anchor::build(&cands, &[&lo], |_, _| Some(Val(3.0)));
    // A LowerIsBetter native score is oriented to higher-is-better by negation.
    assert_eq!(anchor.scores[0][0], Some(d(-3.0)));
}

#[test]
fn none_score_is_stored_as_absent_facet() {
    let cands: Vec<usize> = (0..4).collect();
    let a = channel("a", Direction::HigherIsBetter);
    // Facet absent on the odd candidates.
    let anchor = Anchor::build(&cands, &[&a], |id, _| {
        if id % 2 == 0 {
            Some(Val(*id as f64))
        } else {
            None
        }
    });
    assert_eq!(anchor.scores[0][0], Some(d(0.0)));
    assert_eq!(anchor.scores[0][1], None);
    assert_eq!(anchor.scores[0][2], Some(d(2.0)));
    assert_eq!(anchor.scores[0][3], None);
}

#[test]
fn non_finite_score_is_dropped_to_none() {
    let cands = vec![0usize, 1];
    let a = channel("a", Direction::HigherIsBetter);
    let anchor = Anchor::build(&cands, &[&a], |id, _| {
        if *id == 0 {
            Some(Val(f64::NAN))
        } else {
            Some(Val(1.5))
        }
    });
    // A NaN that would corrupt a streaming correlation is sanitized to absent.
    assert_eq!(anchor.scores[0][0], None);
    assert_eq!(anchor.scores[0][1], Some(d(1.5)));
}
