use ruffle::reconcile::{
    asymmetry_warnings, carried_keys, channel_input_counts, merged_keys, reconcile,
    reconcile_report, rekey_cmd, rekey_report,
};
use ruffle::text::{decimal_text, list_text};
use ruffle::{
    BaselineMode, ChannelSummary, Direction, Divergence, Double, MergePolicy, Mismatch, OrderedMap,
    PairSummary, RuffleState, StatFingerprint, UnorderedPair,
};
use Direction::{HigherIsBetter, LowerIsBetter};

fn d(x: f64) -> Double {
    Double::from_bits(x.to_bits())
}

fn f(x: Double) -> f64 {
    f64::from_bits(x.to_bits())
}

fn key(s: &str) -> String {
    s.to_string()
}

fn shown(divergence: &Divergence) -> (String, Vec<(String, String)>) {
    let per_channel = &divergence.per_channel;
    let distances = (0..per_channel.len())
        .map(|i| {
            let distance = format!("{:.6}", f(*per_channel.value_at(i)));
            (per_channel.key_at(i).clone(), distance)
        })
        .collect();
    (format!("{:.6}", f(divergence.max)), distances)
}

fn fingerprint(dirs: &[(&str, Direction)]) -> StatFingerprint {
    let mut m = OrderedMap::new();
    for (k, dir) in dirs {
        m.insert(key(k), *dir);
    }
    StatFingerprint::new(BaselineMode::ZScore, m)
}

/// A channel summary tagged `tag`, its separation baseline built from `sep`.
fn chan(tag: &str, sep: &[f64]) -> ChannelSummary {
    let mut c = ChannelSummary::new(tag.to_string());
    for &x in sep {
        c.separation.push(d(x));
    }
    c
}

fn state(fp: StatFingerprint, chans: &[(&str, ChannelSummary)]) -> RuffleState {
    let mut s = RuffleState::new(fp);
    for (k, c) in chans {
        s.channels.insert(key(k), c.clone());
    }
    s
}

fn aged(s: RuffleState, format_version: u32) -> RuffleState {
    let fingerprint = s.fingerprint().clone();
    RuffleState::loaded(format_version, fingerprint, s.channels, s.pairs)
}

// --- reconcile: the happy path matches the library merge ---

#[test]
fn reconcile_merges_and_matches_library_merge() {
    let a = state(
        fingerprint(&[("x", HigherIsBetter), ("y", HigherIsBetter)]),
        &[
            ("x", chan("m", &[1.0, 2.0, 3.0])),
            ("y", chan("m", &[4.0, 5.0])),
        ],
    );
    let b = state(
        fingerprint(&[("x", HigherIsBetter), ("z", LowerIsBetter)]),
        &[("x", chan("m", &[10.0, 11.0])), ("z", chan("m", &[6.0]))],
    );
    let got = reconcile(&[a.clone(), b.clone()]).unwrap();
    let (expected, _) = RuffleState::merge(&[&a, &b], MergePolicy::Strict).unwrap();
    assert_eq!(got.merged, expected, "written state equals the library merge");
    // x was in both inputs, so its baseline pooled all five observations.
    let x = got.merged.channels.get(&key("x")).unwrap();
    assert!((f(x.separation.count()) - 5.0).abs() < 1e-9);
}

// --- reconcile: every incompatibility is a loud refusal ---

fn assert_refuses(parts: &[RuffleState], expect: &Mismatch, needles: &[&str]) {
    let e = match reconcile(parts) {
        Err(e) => e,
        Ok(_) => panic!("expected a refusal"),
    };
    assert_eq!(&e, expect, "refusal kind");
    let msg = e.to_string();
    for needle in needles {
        assert!(
            msg.contains(needle),
            "message {msg:?} should mention {needle:?}"
        );
    }
}

#[test]
fn reconcile_refuses_on_tag_mismatch() {
    let a = state(
        fingerprint(&[("x", HigherIsBetter)]),
        &[("x", chan("model-1", &[1.0]))],
    );
    let b = state(
        fingerprint(&[("x", HigherIsBetter)]),
        &[("x", chan("model-2", &[2.0]))],
    );
    assert_refuses(
        &[a, b],
        &Mismatch::Tag {
            channel: "x".into(),
            left: "model-1".into(),
            right: "model-2".into(),
        },
        &["tag mismatch", "x", "model-1", "model-2"],
    );
}

#[test]
fn reconcile_refuses_on_format_version_mismatch() {
    let a = state(fingerprint(&[]), &[]);
    let b = aged(state(fingerprint(&[]), &[]), 99);
    assert_refuses(
        &[a, b],
        &Mismatch::FormatVersion {
            left: RuffleState::FORMAT_VERSION,
            right: 99,
        },
        &["format version mismatch", "99"],
    );
}

#[test]
fn reconcile_refuses_on_fingerprint_mismatch() {
    let a = state(fingerprint(&[]), &[]);
    let mut fp = fingerprint(&[]);
    fp.stat_version = 99;
    let b = state(fp, &[]);
    assert_refuses(&[a, b], &Mismatch::Fingerprint, &["fingerprint mismatch"]);
}

#[test]
fn reconcile_refuses_on_direction_conflict() {
    let a = state(fingerprint(&[("x", HigherIsBetter)]), &[]);
    let b = state(fingerprint(&[("x", LowerIsBetter)]), &[]);
    assert_refuses(
        &[a, b],
        &Mismatch::DirectionConflict {
            channel: "x".into(),
        },
        &["direction conflict", "x"],
    );
}

// --- reconcile: asymmetric inputs warn but still carry the channel through ---

#[test]
fn reconcile_warns_on_asymmetric_key_but_merges_it() {
    let a = state(
        fingerprint(&[("x", HigherIsBetter), ("y", HigherIsBetter)]),
        &[("x", chan("m", &[1.0, 2.0])), ("y", chan("m", &[7.0]))],
    );
    let b = state(
        fingerprint(&[("x", HigherIsBetter)]),
        &[("x", chan("m", &[3.0]))],
    );
    let got = reconcile(&[a, b]).unwrap();
    assert_eq!(got.warnings.len(), 1);
    let warn = &got.warnings[0];
    assert!(warn.contains("warning"), "warning text: {warn:?}");
    assert!(
        warn.contains("\"y\""),
        "names the asymmetric channel: {warn:?}"
    );
    assert!(warn.contains("1 of 2"), "states the input count: {warn:?}");
    assert_eq!(
        warn,
        "ruffle: warning: channel \"y\" present in 1 of 2 inputs; carried through the union, not \
         dropped"
    );
    // y is present in only one input, but it is not dropped.
    assert!(got.merged.channels.contains_key(&key("y")));
    assert!(got.merged.channels.contains_key(&key("x")));
}

#[test]
fn reconcile_report_prints_divergence_and_partition() {
    // x in both (and shifted, so divergence is large); y only in a.
    let a = state(
        fingerprint(&[("x", HigherIsBetter), ("y", HigherIsBetter)]),
        &[
            ("x", chan("m", &[-1.0, 0.0, 1.0])),
            ("y", chan("m", &[1.0, 2.0])),
        ],
    );
    let b = state(
        fingerprint(&[("x", HigherIsBetter)]),
        &[("x", chan("m", &[9.0, 10.0, 11.0]))],
    );
    let got = reconcile(&[a, b]).unwrap();
    assert!(f(got.divergence.max) > 5.0);
    // x merged (in both), y carried (single input), each on the right list and only there.
    assert_eq!(list_text(&merged_keys(&got.counts)), "x");
    assert_eq!(list_text(&carried_keys(&got.counts)), "y");
    let (max, distances) = shown(&got.divergence);
    let report = reconcile_report(&max, &distances, &got.counts);
    assert_eq!(report.len(), 5);
    assert!(report[0].contains("divergence"));
    assert_eq!(report[1], format!("  max: {max}"));
    assert_eq!(report[2], format!("  x: {max}"));
    assert_eq!(report[3], "channels merged (present in more than one input): x");
    assert_eq!(report[4], "channels carried from a single input: y");
}

#[test]
fn reconcile_single_input_canonicalises() {
    let a = state(
        fingerprint(&[("x", HigherIsBetter)]),
        &[("x", chan("m", &[1.0, 2.0, 3.0]))],
    );
    let got = reconcile(&[a.clone()]).unwrap();
    assert_eq!(got.merged, a);
    // No asymmetry warning for a single input.
    assert!(got.warnings.is_empty());
}

// --- rekey: the safe rename round-trips ---

#[test]
fn rekey_renames_and_round_trips() {
    let mut s = state(
        fingerprint(&[("old", LowerIsBetter), ("keep", HigherIsBetter)]),
        &[
            ("old", chan("m", &[1.0, 2.0, 3.0])),
            ("keep", chan("m", &[4.0])),
        ],
    );
    let mut pair = PairSummary::new();
    pair.redundancy.push(d(0.5));
    s.pairs
        .insert(UnorderedPair::new(key("old"), key("keep")), pair);
    let old_mean = f(s.channels.get(&key("old")).unwrap().separation.mean());

    let (got, _) = rekey_cmd(&s, "old", "new");
    assert!(!got.channels.contains_key(&key("old")));
    assert!(got.channels.contains_key(&key("new")));
    let new_mean = f(got.channels.get(&key("new")).unwrap().separation.mean());
    assert!((new_mean - old_mean).abs() < 1e-12);
    // The pair and the orientation followed the rename.
    assert!(got
        .pairs
        .contains_key(&UnorderedPair::new(key("new"), key("keep"))));
    assert_eq!(
        got.fingerprint().directions.get(&key("new")),
        Some(&LowerIsBetter)
    );
}

#[test]
fn rekey_report_is_zero_for_untouched_channels() {
    let s = state(
        fingerprint(&[("old", HigherIsBetter), ("keep", HigherIsBetter)]),
        &[
            ("old", chan("m", &[1.0, 2.0])),
            ("keep", chan("m", &[5.0, 6.0, 7.0])),
        ],
    );
    let (_, divergence) = rekey_cmd(&s, "old", "new");
    // `keep` is unchanged, so its divergence reads zero; the renamed channel drops out.
    assert_eq!(divergence.per_channel.len(), 1);
    assert_eq!(f(*divergence.per_channel.get(&key("keep")).unwrap()), 0.0);
    let (max, distances) = shown(&divergence);
    let report = rekey_report(&max, &distances);
    assert!(report[0].contains("sanity check"));
    assert_eq!(report[1..], ["  max: 0.000000", "  keep: 0.000000"]);
    // Renaming a channel to itself changes nothing.
    let (same, _) = rekey_cmd(&s, "old", "old");
    assert_eq!(same, s);
}

#[test]
fn inputs_are_counted_by_channel() {
    let parts: Vec<RuffleState> = [&["a", "b"][..], &["b"][..], &["b", "c"][..]]
        .iter()
        .map(|names| {
            let chans: Vec<(&str, ChannelSummary)> =
                names.iter().map(|n| (*n, chan("m", &[1.0]))).collect();
            state(fingerprint(&[]), &chans)
        })
        .collect();
    let counts = channel_input_counts(&parts);
    assert_eq!(counts.get(&key("a")), Some(&1));
    assert_eq!(counts.get(&key("b")), Some(&3));
    assert_eq!(counts.get(&key("c")), Some(&1));
    assert_eq!(counts.len(), 3);
    assert_eq!(merged_keys(&counts), vec!["b"]);
    assert_eq!(carried_keys(&counts), vec!["a", "c"]);
    assert_eq!(asymmetry_warnings(&counts, 3).len(), 2);
    assert_eq!(asymmetry_warnings(&counts, 1).len(), 0);
}

#[test]
fn numbers_and_lists_are_written_plainly() {
    for n in [0u64, 7, 10, 99, 100, 1234567890, u64::MAX] {
        assert_eq!(decimal_text(n), n.to_string());
    }
    assert_eq!(list_text(&vec![]), "(none)");
    assert_eq!(list_text(&vec![key("a"), key("b"), key("c")]), "a, b, c");
}
