use ruffle::{ChannelConfig, ChannelId, ChannelInput, Direction, Double, Items, Score};

fn d(x: f64) -> Double {
    Double::from_bits(x.to_bits())
}

fn f(x: Double) -> f64 {
    f64::from_bits(x.to_bits())
}

struct Raw(f64);
impl Score for Raw {
    fn value(&self) -> Double {
        d(self.0)
    }
}

fn cfg(dir: Direction) -> ChannelConfig {
    ChannelConfig::new(ChannelId::new("ch", "tag-1"), dir, None)
}

fn scored_or_panic(obs: &ChannelInput<u32>) -> Vec<(u32, f64)> {
    match &obs.items {
        Items::Scored(v) => v.iter().map(|(id, s)| (*id, f(*s))).collect(),
        Items::Ranks(_) => panic!("expected Scored"),
    }
}

#[test]
fn higher_is_better_passes_scores_through() {
    let obs = ChannelInput::scored(
        &cfg(Direction::HigherIsBetter),
        vec![(1u32, Raw(0.9)), (2, Raw(0.1)), (3, Raw(-0.5))],
    );
    assert_eq!(
        scored_or_panic(&obs),
        vec![(1u32, 0.9), (2, 0.1), (3, -0.5)]
    );
    assert_eq!(obs.key, "ch");
}

#[test]
fn lower_is_better_negates_scores() {
    let obs = ChannelInput::scored(
        &cfg(Direction::LowerIsBetter),
        vec![(1u32, Raw(0.9)), (2, Raw(0.1)), (3, Raw(-0.5))],
    );
    assert_eq!(
        scored_or_panic(&obs),
        vec![(1u32, -0.9), (2, -0.1), (3, 0.5)]
    );
}

#[test]
fn non_finite_items_are_dropped() {
    let obs = ChannelInput::scored(
        &cfg(Direction::HigherIsBetter),
        vec![
            (1u32, Raw(0.5)),
            (2, Raw(f64::NAN)),
            (3, Raw(f64::INFINITY)),
            (4, Raw(f64::NEG_INFINITY)),
            (5, Raw(0.25)),
        ],
    );
    assert_eq!(scored_or_panic(&obs), vec![(1u32, 0.5), (5, 0.25)]);
}

#[test]
fn ranks_only_preserved() {
    let obs = ChannelInput::ranked(&cfg(Direction::HigherIsBetter), vec![10u32, 20, 30]);
    assert!(obs.items.is_ranks_only());
    match &obs.items {
        Items::Ranks(v) => assert_eq!(v, &vec![10, 20, 30]),
        Items::Scored(_) => panic!("expected Ranks"),
    }
}

#[test]
fn items_len_and_empty() {
    let scored: Items<u32> = Items::Scored(vec![(1, d(0.1))]);
    assert_eq!(scored.len(), 1);
    assert!(!scored.is_empty());
    let empty: Items<u32> = Items::Ranks(vec![]);
    assert!(empty.is_empty());
    assert!(empty.is_ranks_only());
}

#[test]
fn plain_values_are_ingested_like_scores() {
    let raw = vec![(1u32, 0.9), (2, f64::NAN), (3, -0.5), (4, f64::INFINITY)];
    let scored = ChannelInput::scored(
        &cfg(Direction::LowerIsBetter),
        raw.iter().map(|(id, x)| (*id, Raw(*x))).collect(),
    );
    let plain = ChannelInput::from_values(
        &cfg(Direction::LowerIsBetter),
        raw.iter().map(|(id, x)| (*id, d(*x))).collect(),
    );
    assert_eq!(scored, plain);
    assert_eq!(scored_or_panic(&plain), vec![(1u32, -0.9), (3, 0.5)]);
}
