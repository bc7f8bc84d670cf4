use ruffle::ordered::MapKey;
use ruffle::state::standardized_distance;
use ruffle::{
    BaselineMode, ChannelSummary, Direction, Double, MeanVar, MergePolicy, Mismatch, OrderedMap,
    PairSummary, RuffleState, StatFingerprint, UnorderedPair,
};

fn d(x: f64) -> Double {
    Double::from_bits(x.to_bits())
}

fn f(x: Double) -> f64 {
    f64::from_bits(x.to_bits())
}

fn close(a: f64, b: f64, eps: f64) {
    assert!((a - b).abs() <= eps, "{a} is not within {eps} of {b}");
}

const STAT: u32 = StatFingerprint::STAT_VERSION;

fn seeded(mean: f64, variance: f64, count: f64) -> MeanVar {
    MeanVar::from_prior(d(mean), d(variance), d(count))
}

fn at<'a, K: MapKey, V>(map: &'a OrderedMap<K, V>, key: &K) -> &'a V {
    map.get(key).unwrap()
}

fn keys_of<V>(map: &OrderedMap<String, V>) -> Vec<String> {
    (0..map.len()).map(|i| map.key_at(i).clone()).collect()
}

/// The state as if it had been stored at other versions.
fn aged(s: RuffleState, format_version: u32, stat_version: u32) -> RuffleState {
    let mut fingerprint = s.fingerprint().clone();
    fingerprint.stat_version = stat_version;
    RuffleState::loaded(format_version, fingerprint, s.channels, s.pairs)
}

fn key(s: &str) -> String {
    s.to_string()
}

/// A channel summary tagged `t`, its separation baseline built by pushing `sep`.
fn chan(t: &str, sep: &[f64]) -> ChannelSummary {
    let mut c = ChannelSummary::new(t.to_string());
    for &x in sep {
        c.separation.push(d(x));
    }
    c
}

fn fp(dirs: &[(&str, Direction)]) -> StatFingerprint {
    let mut m = OrderedMap::new();
    for (k, dir) in dirs {
        m.insert(key(k), *dir);
    }
    StatFingerprint::new(BaselineMode::ZScore, m)
}

/// A state carrying a fingerprint and a list of `(key, summary)` channels.
fn state(fingerprint: StatFingerprint, chans: &[(&str, ChannelSummary)]) -> RuffleState {
    let mut s = RuffleState::new(fingerprint);
    for (k, c) in chans {
        s.channels.insert(key(k), c.clone());
    }
    s
}

#[test]
fn merge_policy_default_is_strict() {
    assert_eq!(MergePolicy::default(), MergePolicy::Strict);
}

// --- The one merge: associative, commutative, and update = prior = reconcile ---

#[test]
fn merge_is_associative_and_commutative() {
    let dirs = &[
        ("x", Direction::HigherIsBetter),
        ("y", Direction::HigherIsBetter),
        ("z", Direction::LowerIsBetter),
    ];
    let a = state(
        fp(dirs),
        &[
            ("x", chan("mx", &[1.0, 2.0, 3.0])),
            ("y", chan("my", &[5.0, 6.0])),
        ],
    );
    let b = state(
        fp(dirs),
        &[("x", chan("mx", &[10.0, 11.0])), ("z", chan("mz", &[0.5]))],
    );
    let c = state(
        fp(dirs),
        &[
            ("x", chan("mx", &[100.0])),
            ("y", chan("my", &[7.0, 8.0, 9.0])),
        ],
    );

    let (m1, _) = RuffleState::merge(&[&a, &b, &c], MergePolicy::Strict).unwrap();
    let (m2, _) = RuffleState::merge(&[&c, &b, &a], MergePolicy::Strict).unwrap();
    let (m3, _) = RuffleState::merge(&[&b, &a, &c], MergePolicy::Strict).unwrap();

    // Union of all keys, in canonical order, regardless of fold order.
    let keys = keys_of(&m1.channels);
    assert_eq!(keys, vec![key("x"), key("y"), key("z")]);

    // Means and variances are identical across orders up to f64 rounding: update
    // order never matters.
    for k in &keys {
        let s1 = &at(&m1.channels, k).separation;
        let s2 = &at(&m2.channels, k).separation;
        let s3 = &at(&m3.channels, k).separation;
        close(f(s1.mean()), f(s2.mean()), 1e-9);
        close(f(s1.mean()), f(s3.mean()), 1e-9);
        close(f(s1.variance()), f(s2.variance()), 1e-9);
        close(f(s1.variance()), f(s3.variance()), 1e-9);
        close(f(s1.count()), f(s2.count()), 1e-9);
    }
    // x saw 3 + 2 + 1 observations across the parts.
    close(f(at(&m1.channels, &key("x")).separation.count()), 6.0, 1e-9);
}

#[test]
fn streaming_update_equals_prior_equals_reconcile() {
    let dirs = &[("x", Direction::HigherIsBetter)];

    // An operator prior: a hand-written summary with a pseudo-count.
    let mut prior_chan = ChannelSummary::new("m".to_string());
    prior_chan.separation = seeded(0.3, 0.04, 4.0);
    let mut prior = state(fp(dirs), &[]);
    prior.channels.insert(key("x"), prior_chan);

    // Three queries, each a count-1 summary of channel x.
    let q = |v: f64| state(fp(dirs), &[("x", chan("m", &[v]))]);
    let (q1, q2, q3) = (q(0.5), q(0.9), q(0.1));

    // Reconcile in two different orders.
    let (fwd, _) = RuffleState::merge(&[&prior, &q1, &q2, &q3], MergePolicy::Strict).unwrap();
    let (perm, _) = RuffleState::merge(&[&q3, &q1, &prior, &q2], MergePolicy::Strict).unwrap();

    // Reference: fold the underlying summaries directly (a prior then streaming
    // updates), which is the same operation.
    let mut reference = seeded(0.3, 0.04, 4.0);
    for v in [0.5, 0.9, 0.1] {
        reference.push(d(v));
    }

    for merged in [&fwd, &perm] {
        let sep = &at(&merged.channels, &key("x")).separation;
        close(f(sep.mean()), f(reference.mean()), 1e-9);
        close(f(sep.variance()), f(reference.variance()), 1e-9);
        close(f(sep.count()), 7.0, 1e-9);
    }
}

#[test]
fn single_part_merge_returns_it() {
    let a = state(
        fp(&[("x", Direction::HigherIsBetter)]),
        &[("x", chan("m", &[1.0, 2.0, 3.0]))],
    );
    let (m, d) = RuffleState::merge(&[&a], MergePolicy::Strict).unwrap();
    assert_eq!(m, a);
    assert!(d.per_channel.is_empty());
    assert_eq!(f(d.max), 0.0);
}

// --- The union ---

#[test]
fn merge_unions_channels_and_directions() {
    let a = state(
        fp(&[
            ("x", Direction::HigherIsBetter),
            ("y", Direction::HigherIsBetter),
        ]),
        &[("x", chan("m", &[1.0, 2.0])), ("y", chan("m", &[3.0]))],
    );
    let b = state(
        fp(&[
            ("x", Direction::HigherIsBetter),
            ("z", Direction::LowerIsBetter),
        ]),
        &[("x", chan("m", &[10.0])), ("z", chan("m", &[4.0]))],
    );

    let (m, _) = RuffleState::merge(&[&a, &b], MergePolicy::Strict).unwrap();

    let keys = keys_of(&m.channels);
    assert_eq!(keys, vec![key("x"), key("y"), key("z")]);
    // x is the merge of both parts; y and z carry through untouched.
    close(f(at(&m.channels, &key("x")).separation.count()), 3.0, 1e-12);
    close(f(at(&m.channels, &key("y")).separation.mean()), 3.0, 1e-12);
    close(f(at(&m.channels, &key("z")).separation.mean()), 4.0, 1e-12);
    // Directions union, mixed orientations preserved.
    let dir_keys = keys_of(&m.fingerprint().directions);
    assert_eq!(dir_keys, vec![key("x"), key("y"), key("z")]);
    assert_eq!(
        *at(&m.fingerprint().directions, &key("z")),
        Direction::LowerIsBetter
    );
}

#[test]
fn merge_pairs_union_and_merge() {
    let mut a = state(fp(&[]), &[]);
    let mut pa = PairSummary::new();
    pa.redundancy.push(d(0.2));
    pa.redundancy.push(d(0.4));
    a.pairs.insert(UnorderedPair::new(key("x"), key("y")), pa);

    let mut b = state(fp(&[]), &[]);
    let mut pb = PairSummary::new();
    pb.redundancy.push(d(0.6));
    b.pairs.insert(UnorderedPair::new(key("y"), key("x")), pb); // same pair, other order

    let (m, _) = RuffleState::merge(&[&a, &b], MergePolicy::Strict).unwrap();
    assert_eq!(m.pairs.len(), 1);
    let red = &at(&m.pairs, &UnorderedPair::new(key("x"), key("y"))).redundancy;
    close(f(red.count()), 3.0, 1e-12);
}

// --- The gates: every incompatibility refuses ---

#[test]
fn empty_parts_refuses() {
    let parts: [&RuffleState; 0] = [];
    assert_eq!(
        RuffleState::merge(&parts, MergePolicy::Strict).unwrap_err(),
        Mismatch::Empty
    );
}

#[test]
fn format_version_mismatch_refuses() {
    let a = state(fp(&[]), &[]);
    let b = state(fp(&[]), &[]);
    let b = aged(b, 99, STAT);
    assert_eq!(
        RuffleState::merge(&[&a, &b], MergePolicy::Strict).unwrap_err(),
        Mismatch::FormatVersion {
            left: RuffleState::FORMAT_VERSION,
            right: 99
        }
    );
}

#[test]
fn stale_build_version_refuses_even_when_parts_agree() {
    // Two states at the SAME stale format version parse fine and agree with each
    // other; the merge must still refuse, because "parses" is not "compatible with
    // this build".
    let a = state(fp(&[]), &[]);
    let b = state(fp(&[]), &[]);
    let a = aged(a, 99, STAT);
    let b = aged(b, 99, STAT);
    assert_eq!(
        RuffleState::merge(&[&a, &b], MergePolicy::Strict).unwrap_err(),
        Mismatch::FormatVersion {
            left: RuffleState::FORMAT_VERSION,
            right: 99
        }
    );

    // Same for a stale statistic version under the current format version.
    let c = state(fp(&[]), &[]);
    let e = state(fp(&[]), &[]);
    let c = aged(c, RuffleState::FORMAT_VERSION, 1);
    let e = aged(e, RuffleState::FORMAT_VERSION, 1);
    assert_eq!(
        RuffleState::merge(&[&c, &e], MergePolicy::Strict).unwrap_err(),
        Mismatch::Fingerprint
    );
}

#[test]
fn fingerprint_stat_version_mismatch_refuses() {
    let a = state(fp(&[]), &[]);
    let b = state(fp(&[]), &[]);
    let b = aged(b, RuffleState::FORMAT_VERSION, 99);
    assert_eq!(
        RuffleState::merge(&[&a, &b], MergePolicy::Strict).unwrap_err(),
        Mismatch::Fingerprint
    );
}

#[test]
fn per_channel_tag_mismatch_refuses() {
    let a = state(
        fp(&[("x", Direction::HigherIsBetter)]),
        &[("x", chan("model-1", &[1.0]))],
    );
    let b = state(
        fp(&[("x", Direction::HigherIsBetter)]),
        &[("x", chan("model-2", &[2.0]))],
    );
    assert_eq!(
        RuffleState::merge(&[&a, &b], MergePolicy::Strict).unwrap_err(),
        Mismatch::Tag {
            channel: "x".to_string(),
            left: "model-1".to_string(),
            right: "model-2".to_string(),
        }
    );
}

#[test]
fn direction_conflict_on_shared_channel_refuses() {
    // Same key, opposite orientation: a fingerprint-level incompatibility.
    let a = state(fp(&[("x", Direction::HigherIsBetter)]), &[]);
    let b = state(fp(&[("x", Direction::LowerIsBetter)]), &[]);
    assert_eq!(
        RuffleState::merge(&[&a, &b], MergePolicy::Strict).unwrap_err(),
        Mismatch::DirectionConflict {
            channel: "x".to_string()
        }
    );
}

#[test]
fn differing_directions_on_different_channels_union_fine() {
    let a = state(fp(&[("x", Direction::HigherIsBetter)]), &[]);
    let b = state(fp(&[("y", Direction::LowerIsBetter)]), &[]);
    let (m, _) = RuffleState::merge(&[&a, &b], MergePolicy::Strict).unwrap();
    assert_eq!(
        *at(&m.fingerprint().directions, &key("x")),
        Direction::HigherIsBetter
    );
    assert_eq!(
        *at(&m.fingerprint().directions, &key("y")),
        Direction::LowerIsBetter
    );
}

// --- Divergence: advisory, never gates ---

#[test]
fn divergence_of_identical_states_is_zero() {
    let a = state(
        fp(&[("x", Direction::HigherIsBetter)]),
        &[("x", chan("m", &[1.0, 2.0, 3.0, 4.0]))],
    );
    let b = a.clone();
    let d = a.divergence(&b);
    assert_eq!(f(d.max), 0.0);
    assert_eq!(f(*at(&d.per_channel, &key("x"))), 0.0);
}

#[test]
fn divergence_flags_a_shifted_channel_only() {
    let dirs = &[
        ("x", Direction::HigherIsBetter),
        ("y", Direction::HigherIsBetter),
    ];
    let a = state(
        fp(dirs),
        &[
            ("x", chan("m", &[-1.0, 0.0, 1.0])),
            ("y", chan("m", &[5.0, 6.0, 7.0])),
        ],
    );
    let b = state(
        fp(dirs),
        &[
            ("x", chan("m", &[9.0, 10.0, 11.0])), // shifted +10, same spread
            ("y", chan("m", &[5.0, 6.0, 7.0])),   // identical
        ],
    );
    let d = a.divergence(&b);
    assert!(
        f(*at(&d.per_channel, &key("x"))) > 5.0,
        "x = {}",
        f(*at(&d.per_channel, &key("x")))
    );
    close(f(*at(&d.per_channel, &key("y"))), 0.0, 1e-12);
    close(f(d.max), f(*at(&d.per_channel, &key("x"))), 0.0);
}

#[test]
fn divergence_only_covers_shared_channels() {
    let a = state(
        fp(&[("x", Direction::HigherIsBetter)]),
        &[("x", chan("m", &[1.0, 2.0]))],
    );
    let b = state(
        fp(&[("y", Direction::HigherIsBetter)]),
        &[("y", chan("m", &[3.0, 4.0]))],
    );
    let d = a.divergence(&b);
    assert!(d.per_channel.is_empty());
    assert_eq!(f(d.max), 0.0);
}

#[test]
fn standardized_distance_pins_formula_and_guard() {
    // var_a = 2, var_b = 6 -> pooled_std = sqrt((2+6)/2) = 2; mean gap 9 -> 9/2 = 4.5.
    let a = seeded(1.0, 2.0, 4.0);
    let b = seeded(10.0, 6.0, 4.0);
    close(f(standardized_distance(&a, &b)), 4.5, 1e-12);

    // Zero pooled spread with equal means is no distance.
    let z0 = seeded(5.0, 0.0, 3.0);
    let z1 = seeded(5.0, 0.0, 3.0);
    assert_eq!(f(standardized_distance(&z0, &z1)), 0.0);
}

#[test]
fn divergence_catches_a_reference_shift_the_separation_misses() {
    // The silent-model-swap signature: the separation baseline is scale- and
    // shift-invariant, so a swap that rescales scores can leave it untouched while
    // the native-units good-score reference jumps. The divergence must read the
    // larger of the two per-channel distances, so this swap is visible.
    let mk = |ref_mean: f64| {
        let mut c = chan("m", &[1.0, 2.0, 3.0]); // identical separation baselines
        c.reference = seeded(ref_mean, 0.01, 6.0);
        state(fp(&[("x", Direction::HigherIsBetter)]), &[("x", c)])
    };
    let a = mk(0.30);
    let b = mk(0.90); // reference shifted 6 pooled-sigma; separation identical
    let d = a.divergence(&b);
    assert!(
        f(*at(&d.per_channel, &key("x"))) > 5.0,
        "the reference shift must dominate: {}",
        f(*at(&d.per_channel, &key("x")))
    );
    // Identical references and separations still read zero.
    assert_eq!(f(mk(0.30).divergence(&mk(0.30)).max), 0.0);
}

#[test]
fn merge_sums_pair_refreshes_and_decay_scales_them() {
    // Merging two states pools their between-refresh evidence: refresh counts add.
    let pair = UnorderedPair::new(key("x"), key("y"));
    let mut a = state(fp(&[]), &[]);
    let mut pa = PairSummary::new();
    pa.redundancy.push(d(0.2));
    pa.refreshes = d(1.0);
    a.pairs.insert(pair.clone(), pa);

    let mut b = state(fp(&[]), &[]);
    let mut pb = PairSummary::new();
    pb.redundancy.push(d(0.4));
    pb.refreshes = d(2.0);
    b.pairs.insert(pair.clone(), pb);

    let (m, _) = RuffleState::merge(&[&a, &b], MergePolicy::Strict).unwrap();
    close(f(at(&m.pairs, &pair).refreshes), 3.0, 1e-12);

    // Decay scales the refresh count alongside the redundancy count, so the two
    // gates age in lockstep.
    let mut decayed = m;
    decayed.decay(d(0.5));
    close(f(at(&decayed.pairs, &pair).refreshes), 1.5, 1e-12);
}

#[test]
fn divergence_caps_when_spread_collapses() {
    // Both baselines degenerate (zero variance) but with different means: an
    // infinite z-distance, reported at the cap.
    let a = state(
        fp(&[("x", Direction::HigherIsBetter)]),
        &[("x", chan("m", &[5.0, 5.0, 5.0]))],
    );
    let b = state(
        fp(&[("x", Direction::HigherIsBetter)]),
        &[("x", chan("m", &[8.0, 8.0, 8.0]))],
    );
    let d = a.divergence(&b);
    close(f(*at(&d.per_channel, &key("x"))), 1.0e6, 0.0);
}

#[test]
fn merge_reports_max_pairwise_divergence() {
    let mk = |vals: &[f64]| {
        state(
            fp(&[("x", Direction::HigherIsBetter)]),
            &[("x", chan("m", vals))],
        )
    };
    let a = mk(&[-1.0, 0.0, 1.0]);
    let b = mk(&[-1.0, 0.0, 1.0]); // identical to a
    let c = mk(&[9.0, 10.0, 11.0]); // shifted

    let (_, d) = RuffleState::merge(&[&a, &b, &c], MergePolicy::Strict).unwrap();
    // The a–b pair is 0, but the a–c / b–c pairs are large; the max wins.
    assert!(f(*at(&d.per_channel, &key("x"))) > 5.0);
    close(f(d.max), f(*at(&d.per_channel, &key("x"))), 0.0);
    assert_eq!(f(*at(&a.divergence(&b).per_channel, &key("x"))), 0.0);
}

// --- rekey: the safe rename ---

#[test]
fn rekey_renames_across_channels_pairs_and_fingerprint() {
    let mut s = state(
        fp(&[
            ("old", Direction::LowerIsBetter),
            ("p2", Direction::HigherIsBetter),
        ]),
        &[
            ("old", chan("m", &[1.0, 2.0, 3.0])),
            ("p2", chan("m", &[4.0])),
        ],
    );
    let mut pair = PairSummary::new();
    pair.redundancy.push(d(0.5));
    s.pairs
        .insert(UnorderedPair::new(key("old"), key("p2")), pair);
    let old_mean = f(at(&s.channels, &key("old")).separation.mean());

    s.rekey(&key("old"), key("new"));

    assert!(!s.channels.contains_key(&key("old")));
    close(f(at(&s.channels, &key("new")).separation.mean()), old_mean, 1e-12);
    // The pair is rebuilt around the new key.
    assert!(
        s.pairs
            .contains_key(&UnorderedPair::new(key("new"), key("p2")))
    );
    assert!(
        !s.pairs
            .contains_key(&UnorderedPair::new(key("old"), key("p2")))
    );
    // The orientation moves with the key.
    assert_eq!(
        s.fingerprint().directions.get(&key("new")),
        Some(&Direction::LowerIsBetter)
    );
    assert!(!s.fingerprint().directions.contains_key(&key("old")));
}

#[test]
fn rekey_into_existing_key_merges_keeping_destination_tag() {
    let mut s = state(
        fp(&[
            ("old", Direction::HigherIsBetter),
            ("new", Direction::HigherIsBetter),
        ]),
        &[
            ("old", chan("m", &[1.0, 2.0, 3.0])),
            ("new", chan("keep", &[10.0, 11.0])),
        ],
    );
    s.rekey(&key("old"), key("new"));
    assert!(!s.channels.contains_key(&key("old")));
    let merged = &at(&s.channels, &key("new"));
    close(f(merged.separation.count()), 5.0, 1e-12);
    // Collision keeps the destination's identity.
    assert_eq!(merged.tag.as_str(), "keep");
}

#[test]
fn rekey_merges_colliding_pairs() {
    let mut s = state(
        fp(&[]),
        &[
            ("old", chan("m", &[1.0])),
            ("new", chan("m", &[2.0])),
            ("x", chan("m", &[3.0])),
        ],
    );
    let mut p_old = PairSummary::new();
    p_old.redundancy.push(d(0.2));
    p_old.redundancy.push(d(0.4));
    let mut p_new = PairSummary::new();
    p_new.redundancy.push(d(0.6));
    s.pairs
        .insert(UnorderedPair::new(key("old"), key("x")), p_old);
    s.pairs
        .insert(UnorderedPair::new(key("new"), key("x")), p_new);

    s.rekey(&key("old"), key("new"));

    assert_eq!(s.pairs.len(), 1);
    let merged = &at(&s.pairs, &UnorderedPair::new(key("new"), key("x"))).redundancy;
    close(f(merged.count()), 3.0, 1e-12);
}

#[test]
fn rekey_roundtrips_without_collision() {
    let mut s = state(
        fp(&[("a", Direction::HigherIsBetter)]),
        &[("a", chan("m", &[1.0, 2.0, 3.0]))],
    );
    let before = f(at(&s.channels, &key("a")).separation.mean());
    s.rekey(&key("a"), key("b"));
    s.rekey(&key("b"), key("a"));
    assert!(s.channels.contains_key(&key("a")));
    close(f(at(&s.channels, &key("a")).separation.mean()), before, 1e-12);
}

#[test]
fn rekey_is_a_noop_when_from_equals_to() {
    let mut s = state(
        fp(&[("a", Direction::HigherIsBetter)]),
        &[("a", chan("m", &[1.0, 2.0]))],
    );
    let before = s.clone();
    s.rekey(&key("a"), key("a"));
    assert_eq!(s, before);
}

// --- decay ---

#[test]
fn decay_halves_counts_and_preserves_means_and_variances() {
    let mut x = chan("m", &[1.0, 2.0, 3.0, 4.0]);
    x.reference = seeded(0.5, 0.01, 6.0);
    let mut s = state(fp(&[("x", Direction::HigherIsBetter)]), &[]);
    s.channels.insert(key("x"), x);
    let mut pair = PairSummary::new();
    pair.redundancy.push(d(0.3));
    pair.redundancy.push(d(0.5));
    s.pairs.insert(UnorderedPair::new(key("x"), key("x")), pair);

    let sep0 = at(&s.channels, &key("x")).separation;
    let ref0 = at(&s.channels, &key("x")).reference;
    let red0 = at(&s.pairs, &UnorderedPair::new(key("x"), key("x"))).redundancy;

    s.decay(d(0.5));

    let sep1 = &at(&s.channels, &key("x")).separation;
    close(f(sep1.count()), f(sep0.count()) * 0.5, 1e-12);
    close(f(sep1.mean()), f(sep0.mean()), 1e-12);
    close(f(sep1.variance()), f(sep0.variance()), 1e-12);

    let ref1 = &at(&s.channels, &key("x")).reference;
    close(f(ref1.count()), f(ref0.count()) * 0.5, 1e-12);
    close(f(ref1.mean()), f(ref0.mean()), 1e-12);
    close(f(ref1.variance()), f(ref0.variance()), 1e-12);

    let red1 = &at(&s.pairs, &UnorderedPair::new(key("x"), key("x"))).redundancy;
    close(f(red1.count()), f(red0.count()) * 0.5, 1e-12);
    close(f(red1.mean()), f(red0.mean()), 1e-12);
}

#[test]
fn identical_contents_serialize_byte_identically() {
    // Built with channels inserted in opposite orders; the map keeps its keys in order,
    // so what is written is identical.
    let mut s1 = RuffleState::new(fp(&[
        ("x", Direction::HigherIsBetter),
        ("y", Direction::HigherIsBetter),
    ]));
    s1.channels.insert(key("y"), chan("m", &[3.0, 4.0]));
    s1.channels.insert(key("x"), chan("m", &[1.0, 2.0]));

    let mut s2 = RuffleState::new(fp(&[
        ("x", Direction::HigherIsBetter),
        ("y", Direction::HigherIsBetter),
    ]));
    s2.channels.insert(key("x"), chan("m", &[1.0, 2.0]));
    s2.channels.insert(key("y"), chan("m", &[3.0, 4.0]));

    assert_eq!(
        format!("{s1:?}"),
        format!("{s2:?}")
    );
}

#[test]
fn stored_parts_load_back_exactly() {
    let mut s = state(
        fp(&[
            ("x", Direction::HigherIsBetter),
            ("y", Direction::LowerIsBetter),
        ]),
        &[("x", chan("model-x", &[1.0, 2.0, 3.0]))],
    );
    let mut pair = PairSummary::new();
    pair.redundancy.push(d(0.25));
    s.pairs.insert(UnorderedPair::new(key("x"), key("y")), pair);
    let back = RuffleState::loaded(
        s.format_version(),
        s.fingerprint().clone(),
        s.channels.clone(),
        s.pairs.clone(),
    );
    assert_eq!(s, back);
    assert_eq!(s, s.duplicate());
}

#[test]
fn the_first_conflict_in_order_is_reported() {
    let a = state(
        fp(&[("x", Direction::HigherIsBetter)]),
        &[("x", chan("m", &[1.0])), ("y", chan("one", &[1.0]))],
    );
    let b = state(
        fp(&[("z", Direction::HigherIsBetter)]),
        &[("y", chan("two", &[1.0])), ("x", chan("n", &[1.0]))],
    );
    // Channels are visited in key order.
    let e = RuffleState::merge(&[&a, &b], MergePolicy::Strict).unwrap_err();
    assert_eq!(
        e.to_string(),
        "semantic tag mismatch for channel x: m vs n"
    );
    // Orientation is looked at before tags.
    let c = state(fp(&[("x", Direction::LowerIsBetter)]), &[]);
    let e = RuffleState::merge(&[&a, &b, &c], MergePolicy::Strict).unwrap_err();
    assert_eq!(e.to_string(), "direction conflict for channel x");
    // Statistic definitions are looked at before orientation, and formats before both.
    let old = aged(c.clone(), RuffleState::FORMAT_VERSION, 7);
    let e = RuffleState::merge(&[&a, &c, &old], MergePolicy::Strict).unwrap_err();
    assert_eq!(e.to_string(), "statistic fingerprint mismatch");
    let older = aged(c, 10, 7);
    let e = RuffleState::merge(&[&a, &old, &older], MergePolicy::Strict).unwrap_err();
    assert_eq!(e.to_string(), "format version mismatch: 2 vs 10");
    let e = RuffleState::merge(&[], MergePolicy::Strict).unwrap_err();
    assert_eq!(e.to_string(), "cannot merge an empty set of states");
}

#[test]
fn the_order_of_states_does_not_decide_whether_they_merge() {
    let a = state(
        fp(&[("x", Direction::HigherIsBetter)]),
        &[("x", chan("m", &[1.0]))],
    );
    let b = state(fp(&[]), &[("y", chan("m", &[2.0]))]);
    let c = state(fp(&[]), &[("x", chan("other", &[3.0]))]);
    let perms = [
        [&a, &b, &c],
        [&a, &c, &b],
        [&b, &a, &c],
        [&b, &c, &a],
        [&c, &a, &b],
        [&c, &b, &a],
    ];
    for p in perms {
        assert!(RuffleState::merge(&p, MergePolicy::Strict).is_err());
    }
    for p in [[&a, &b], [&b, &a], [&b, &c], [&c, &b]] {
        assert!(RuffleState::merge(&p, MergePolicy::Strict).is_ok());
    }
}

#[test]
fn divergence_is_symmetric() {
    let a = state(fp(&[]), &[("x", chan("m", &[-1.0, 0.0, 1.5]))]);
    let b = state(fp(&[]), &[("x", chan("m", &[0.1, 0.2, 0.7])), ("y", chan("m", &[1.0]))]);
    assert_eq!(a.divergence(&b), b.divergence(&a));
}

#[test]
fn rekey_to_a_fresh_name_and_back_gives_the_state_back() {
    let mut s = state(
        fp(&[("m", Direction::LowerIsBetter)]),
        &[("m", chan("t", &[1.0, 2.0])), ("z", chan("t", &[5.0]))],
    );
    for (a, b, v) in [("m", "z", 0.5), ("a", "m", 0.25), ("a", "z", 0.125)] {
        let mut pair = PairSummary::new();
        pair.redundancy.push(d(v));
        pair.refreshes = d(2.0);
        s.pairs.insert(UnorderedPair::new(key(a), key(b)), pair);
    }
    let before = s.clone();
    s.rekey("m", key("b"));
    assert_ne!(s, before);
    assert!(s.pairs.contains_key(&UnorderedPair::new(key("a"), key("b"))));
    s.rekey("b", key("m"));
    assert_eq!(s, before);
}

#[test]
fn rekey_pools_the_refreshes_of_colliding_pairs() {
    let mut s = state(fp(&[]), &[]);
    for (a, refreshes) in [("old", 2.0), ("new", 3.0)] {
        let mut pair = PairSummary::new();
        pair.redundancy.push(d(0.5));
        pair.refreshes = d(refreshes);
        s.pairs.insert(UnorderedPair::new(key(a), key("x")), pair);
    }
    s.rekey("old", key("new"));
    let merged = at(&s.pairs, &UnorderedPair::new(key("new"), key("x")));
    assert_eq!(f(merged.refreshes), 5.0);
    assert_eq!(f(merged.redundancy.count()), 2.0);
}

#[test]
fn ordered_maps_insert_replace_and_remove() {
    let mut map: OrderedMap<String, u32> = OrderedMap::new();
    assert!(map.is_empty());
    assert_eq!(map.insert(key("b"), 2), None);
    assert_eq!(map.insert(key("a"), 1), None);
    assert_eq!(map.insert(key("c"), 3), None);
    assert_eq!(map.insert(key("b"), 20), Some(2));
    assert_eq!(keys_of(&map), vec!["a", "b", "c"]);
    assert_eq!(map.get(&key("b")), Some(&20));
    assert_eq!(map.remove(&key("a")), Some(1));
    assert_eq!(map.remove(&key("a")), None);
    assert_eq!(map.find(&key("c")), Some(1));
    map.set_value(1, 30);
    assert_eq!(*map.value_at(1), 30);
    assert_eq!(map.len(), 2);
    assert!(!map.contains_key(&key("z")));
}

#[test]
fn merging_in_groups_is_merging_at_once() {
    let dirs = &[("x", Direction::HigherIsBetter), ("y", Direction::LowerIsBetter)];
    let a = state(fp(dirs), &[("x", chan("m", &[0.1, 0.7, 0.4]))]);
    let b = state(fp(dirs), &[("x", chan("m", &[0.3])), ("y", chan("n", &[5.0, 6.5]))]);
    let c = state(fp(dirs), &[("y", chan("n", &[2.25])), ("x", chan("m", &[0.9, 0.2]))]);
    let (at_once, _) = RuffleState::merge(&[&a, &b, &c], MergePolicy::Strict).unwrap();
    let (pair, _) = RuffleState::merge(&[&a, &b], MergePolicy::Strict).unwrap();
    let (grouped, _) = RuffleState::merge(&[&pair, &c], MergePolicy::Strict).unwrap();
    assert_eq!(grouped.channels, at_once.channels);
    let (later, _) = RuffleState::merge(&[&b, &c], MergePolicy::Strict).unwrap();
    let (other, _) = RuffleState::merge(&[&a, &later], MergePolicy::Strict).unwrap();
    assert_eq!(keys_of(&other.channels), keys_of(&at_once.channels));
    for k in keys_of(&at_once.channels) {
        let x = at(&at_once.channels, &k).separation;
        let y = at(&other.channels, &k).separation;
        assert_eq!(f(x.count()), f(y.count()));
        close(f(x.mean()), f(y.mean()), 1e-12);
        close(f(x.variance()), f(y.variance()), 1e-12);
    }
    let (turned, _) = RuffleState::merge(&[&c, &a, &b], MergePolicy::Strict).unwrap();
    assert_eq!(keys_of(&turned.channels), keys_of(&at_once.channels));
    for k in keys_of(&at_once.channels) {
        let x = at(&at_once.channels, &k);
        let y = at(&turned.channels, &k);
        assert_eq!(x.tag, y.tag);
        assert_eq!(f(x.separation.count()), f(y.separation.count()));
    }
}
