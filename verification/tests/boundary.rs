use ruffle::boundary::{
    build_anchor, channel_input, check_rows, flag_str, parse_baseline_mode, parse_direction,
    parse_policy, AnchorError, InputError,
};
use ruffle::{BaselineMode, ChannelFlag, Direction, Double, Items, MergePolicy};

fn d(x: f64) -> Double {
    Double::from_bits(x.to_bits())
}

#[test]
fn names_stand_for_directions_policies_and_modes() {
    assert_eq!(parse_direction("higher_is_better"), Some(Direction::HigherIsBetter));
    assert_eq!(parse_direction("lower_is_better"), Some(Direction::LowerIsBetter));
    assert_eq!(parse_direction("Higher_is_better"), None);
    assert_eq!(parse_direction(""), None);
    assert_eq!(parse_policy("strict"), Some(MergePolicy::Strict));
    assert_eq!(parse_policy("loose"), None);
    assert_eq!(parse_baseline_mode("z_score"), Some(BaselineMode::ZScore));
    assert_eq!(parse_baseline_mode("zscore"), None);
}

#[test]
fn flags_have_names() {
    assert_eq!(
        flag_str(ChannelFlag::RanksOnlyDefaultWeighted),
        "ranks_only_default_weighted"
    );
    assert_eq!(flag_str(ChannelFlag::DegenerateSeparation), "degenerate_separation");
    assert_eq!(flag_str(ChannelFlag::NoReference), "no_reference");
}

#[test]
fn an_input_carries_exactly_one_of_scores_and_ranks() {
    let items = || Some(vec![(1u32, d(2.0)), (2, d(f64::NAN))]);
    let ids = || Some(vec![4u32, 3]);
    let dir = |s: &str| Some(s.to_string());
    let scored = channel_input("k".into(), dir("lower_is_better"), items(), None).unwrap();
    assert_eq!(scored.key, "k");
    assert_eq!(scored.items, Items::Scored(vec![(1, d(-2.0))]));
    let ranked = channel_input("k".into(), None, None, ids()).unwrap();
    assert_eq!(ranked.items, Items::Ranks(vec![4, 3]));
    assert_eq!(
        channel_input("k".into(), None, items(), None),
        Err(InputError::NoDirection)
    );
    assert_eq!(
        channel_input("k".into(), dir("up"), items(), None),
        Err(InputError::UnknownDirection)
    );
    assert_eq!(
        channel_input("k".into(), dir("higher_is_better"), items(), ids()),
        Err(InputError::NotExactlyOne)
    );
    assert_eq!(
        channel_input::<u32>("k".into(), dir("higher_is_better"), None, None),
        Err(InputError::NotExactlyOne)
    );
}

#[test]
fn anchors_are_built_from_even_matrices() {
    let a = || ("a".to_string(), Direction::HigherIsBetter);
    let b = || ("b".to_string(), Direction::LowerIsBetter);
    let row = |xs: &[f64]| xs.iter().map(|x| Some(d(*x))).collect::<Vec<_>>();
    let anchor = build_anchor(
        &[a(), b()],
        &[row(&[1.0, 2.0]), vec![Some(d(f64::INFINITY)), None]],
    )
    .unwrap();
    assert_eq!(anchor.channels, vec!["a", "b"]);
    assert_eq!(anchor.scores[0], row(&[1.0, 2.0]));
    assert_eq!(anchor.scores[1], vec![None, None]);
    // A channel named twice reads the row of its first mention, by its own direction.
    let twice = build_anchor(
        &[a(), ("a".to_string(), Direction::LowerIsBetter)],
        &[row(&[1.0]), row(&[9.0])],
    )
    .unwrap();
    assert_eq!(twice.scores, vec![row(&[1.0]), row(&[-1.0])]);

    let e = build_anchor(&[a()], &[]).unwrap_err();
    assert_eq!(e, AnchorError::RowCount { channels: 1, rows: 0 });
    assert_eq!(e.to_string(), "anchor has 1 channels but 0 score rows");
    let e = build_anchor(&[a(), b()], &[row(&[1.0]), row(&[])]).unwrap_err();
    assert_eq!(
        e.to_string(),
        "anchor score rows must all have one entry per candidate"
    );
}

#[test]
fn the_shape_of_a_matrix_is_checked_on_its_own() {
    let row = |n: usize| vec![Some(d(1.0)); n];
    assert_eq!(check_rows(2, &[row(3), row(3)]), Ok(()));
    assert_eq!(
        check_rows(2, &[row(3)]),
        Err(AnchorError::RowCount { channels: 2, rows: 1 })
    );
    assert_eq!(check_rows(2, &[row(3), row(2)]), Err(AnchorError::RaggedRows));
}
