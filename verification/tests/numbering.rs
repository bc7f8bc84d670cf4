use ruffle::numbering::{fuse_stateless_texts, fuse_texts, number_texts};
use ruffle::{
    BaselineMode, ChannelConfig, ChannelId, ChannelInput, Direction, Double, FuseConfig, Fuser,
    GoodScore, Items, OrderedMap, ResumeError, RuffleState, StatFingerprint,
};

fn d(x: f64) -> Double {
    Double::from_bits(x.to_bits())
}

fn exp(x: Double) -> Double {
    d(libm::exp(f64::from_bits(x.to_bits())))
}

fn semantic() -> ChannelConfig {
    ChannelConfig::new(
        ChannelId::new("semantic", "text-embedding-v1"),
        Direction::HigherIsBetter,
        None,
    )
}

fn lexical() -> ChannelConfig {
    ChannelConfig::new(
        ChannelId::new("lexical", "sqlite-fts5-trigram-bm25"),
        Direction::LowerIsBetter,
        Some(GoodScore::new(d(-4.0), d(-12.0), d(8.0))),
    )
}

fn recency() -> ChannelConfig {
    ChannelConfig::new(
        ChannelId::new("recency", "recency-v1"),
        Direction::HigherIsBetter,
        None,
    )
}

fn listed<Id>(name: impl Fn(&str) -> Id) -> Vec<ChannelInput<Id>> {
    vec![
        ChannelInput::from_values(
            &semantic(),
            vec![
                (name("kelp-forest"), d(0.55)),
                (name("whale-sketch"), d(0.91)),
                (name("tide-chart"), d(0.42)),
            ],
        ),
        ChannelInput::from_values(
            &lexical(),
            vec![
                (name("whale-sketch"), d(-3.7)),
                (name("field-notes"), d(-1.4)),
                (name("kelp-forest"), d(-6.4)),
            ],
        ),
        ChannelInput::ranked(
            &recency(),
            vec![name("field-notes"), name("whale-sketch"), name("kelp-forest")],
        ),
    ]
}

fn fuser() -> Fuser {
    Fuser::new(&[semantic(), lexical(), recency()], FuseConfig::default()).unwrap()
}

#[test]
fn texts_are_numbered_once_each() {
    let (inputs, texts) = number_texts(&listed(str::to_string));
    assert_eq!(
        texts,
        ["kelp-forest", "whale-sketch", "tide-chart", "field-notes"]
    );
    assert_eq!(inputs.len(), 3);
    assert_eq!(inputs[0].key, "semantic");
    assert_eq!(
        inputs[1].items,
        Items::Scored(vec![(1, d(3.7)), (3, d(1.4)), (0, d(6.4))])
    );
    assert_eq!(inputs[2].items, Items::Ranks(vec![3, 1, 0]));
    assert!(number_texts(&[]).1.is_empty());
}

#[test]
fn texts_fuse_as_any_other_ids() {
    let mut by_number = fuser();
    let mut by_text = fuser();
    let mut direct = fuser();
    for _ in 0..3 {
        let code = |s: &str| s.len() as u32 * 1000 + s.as_bytes()[0] as u32;
        let numbered = by_number.fuse(&listed(code), &exp);
        let named = fuse_texts(&mut by_text, &listed(str::to_string), &exp);
        let plain = direct.fuse(&listed(str::to_string), &exp);
        assert_eq!(named, plain);
        assert_eq!(by_text.state(), by_number.state());
        assert_eq!(named.weights, numbered.weights);
        assert_eq!(named.ranking.len(), 4);
        for (x, y) in named.ranking.iter().zip(&numbered.ranking) {
            assert_eq!((code(&x.0), x.1), *y);
        }
    }
}

#[test]
fn a_channel_below_its_reference_yields_to_the_other() {
    let mut cold = fuser();
    let mut inputs = listed(str::to_string);
    inputs.pop();
    let fused = fuse_texts(&mut cold, &inputs, &exp);
    let weight = |key: &str| f64::from_bits(fused.weights.get(&key.to_string()).unwrap().bits);
    assert!(weight("lexical") < 1.0 && weight("semantic") > 1.0);
    let order: Vec<&str> = fused.ranking.iter().map(|(id, _)| id.as_str()).collect();
    assert_eq!(
        order,
        ["whale-sketch", "kelp-forest", "tide-chart", "field-notes"]
    );
}

#[test]
fn texts_fuse_without_a_trace() {
    let configs = [semantic(), lexical(), recency()];
    let prior = RuffleState::new(StatFingerprint::new(BaselineMode::ZScore, OrderedMap::new()));
    let cfg = FuseConfig::default();
    let inputs = listed(str::to_string);
    let named = fuse_stateless_texts(&inputs, &configs, &prior, &cfg, &exp).unwrap();
    let plain = Fuser::fuse_stateless(&inputs, &configs, &prior, &cfg, &exp).unwrap();
    assert_eq!(named, plain);

    let twice = [semantic(), semantic()];
    let refused = fuse_stateless_texts(&inputs, &twice, &prior, &cfg, &exp);
    assert!(matches!(refused, Err(ResumeError::Config(_))));
}
