use ruffle::components::{discriminate, weighted_rrf};
use ruffle::weighting::discrimination::winsorize_separation;
use ruffle::{
    Anchor, BaselineMode, ChannelConfig, ChannelFlag, ChannelId, ChannelInput, ChannelSummary,
    ConfigError, Direction, DiscriminationConfig, Double, FuseConfig, Fuser, GoodScore, Items,
    MeanVar, Mismatch, OrderedMap, ResumeError, RuffleState, Score, StatFingerprint, UnorderedPair,
};

fn d(x: f64) -> Double {
    Double::from_bits(x.to_bits())
}

fn f(x: Double) -> f64 {
    f64::from_bits(x.to_bits())
}

fn close(a: f64, b: f64, eps: f64) {
    assert!((a - b).abs() <= eps, "{a} is not within {eps} of {b}");
}

fn exp(x: Double) -> Double {
    d(libm::exp(f(x)))
}

fn sin(x: Double) -> Double {
    d(libm::sin(f(x)))
}

fn soft(pool: &[(u32, f64)]) -> Items<u32> {
    Items::Scored(pool.iter().map(|(id, x)| (*id, d(*x))).collect())
}

fn values(map: &OrderedMap<String, Double>) -> Vec<f64> {
    (0..map.len()).map(|i| f(*map.value_at(i))).collect()
}

fn decaying(factor: f64) -> FuseConfig {
    let mut cfg = FuseConfig::default();
    cfg.decay.enabled = true;
    cfg.decay.factor = d(factor);
    cfg
}

/// The state as if it had been stored at other versions.
fn aged(s: RuffleState, format_version: u32, stat_version: u32) -> RuffleState {
    let mut fingerprint = s.fingerprint().clone();
    fingerprint.stat_version = stat_version;
    RuffleState::loaded(format_version, fingerprint, s.channels, s.pairs)
}

/// A caller-side newtype: the only way a bare number becomes a [`Score`].
struct Val(f64);
impl Score for Val {
    fn value(&self) -> Double {
        d(self.0)
    }
}

fn key(s: &str) -> String {
    s.to_string()
}

fn tag() -> String {
    "t".to_string()
}

fn chan(name: &str, good: Option<GoodScore>) -> ChannelConfig {
    ChannelConfig::new(ChannelId::new(name, tag()), Direction::HigherIsBetter, good)
}

/// A pool with 30 distinct bulk values in `[0, 3)` and two spikes far above, so the
/// separation statistic is well-defined (≥ 8 distinct values, a clear top elevation).
/// `base` offsets the ids so several channels can share or disjoin their pools.
fn spiked(base: u32) -> Vec<(u32, Val)> {
    let mut v: Vec<(u32, Val)> = (0..30).map(|i| (base + i, Val(i as f64 * 0.1))).collect();
    v.push((base + 100, Val(10.0)));
    v.push((base + 101, Val(10.5)));
    v
}

fn scored_obs(cfg: &ChannelConfig, base: u32) -> ChannelInput<u32> {
    ChannelInput::scored(cfg, spiked(base))
}

fn ranks_obs(cfg: &ChannelConfig, ids: &[u32]) -> ChannelInput<u32> {
    ChannelInput::ranked(cfg, ids.to_vec())
}

/// A `MeanVar` seeded to a chosen mean, variance, and count (a stand-in for a
/// baseline already accumulated from traffic).
fn baseline(mean: f64, variance: f64, count: f64) -> MeanVar {
    MeanVar::from_prior(d(mean), d(variance), d(count))
}

fn empty_state() -> RuffleState {
    RuffleState::new(StatFingerprint::new(BaselineMode::ZScore, OrderedMap::new()))
}

fn fuser(cfgs: &[ChannelConfig], cfg: FuseConfig) -> Fuser {
    Fuser::new(cfgs, cfg).expect("valid registrations")
}

/// The raw separation a pool reads against a cold baseline (count 0 still computes it).
fn raw_sep(base: u32) -> f64 {
    let read = discriminate(
        &ChannelInput::scored(&chan("x", None), spiked(base)).items,
        &MeanVar::new(),
        &MeanVar::new(),
        &DiscriminationConfig::default(),
        &exp,
    );
    f(read
        .raw_separation
        .expect("separation defined for the spiked pool"))
}

// --- 1. end-to-end fuse over three mixed channels ---------------------------------

#[test]
fn end_to_end_three_channels_mixed() {
    let a = chan("a", None);
    let b = chan("b", None);
    let r = chan("r", None);
    let mut fz = fuser(&[a.clone(), b.clone(), r.clone()], FuseConfig::default());

    let obs = vec![
        scored_obs(&a, 0),
        scored_obs(&b, 0), // share ids with a, so the top sets overlap
        ranks_obs(&r, &[100, 101, 5, 6, 7]),
    ];
    let fused = fz.fuse(&obs, &exp);

    // A ranking came out, covering the surfaced ids.
    assert!(!fused.ranking.is_empty());
    assert!(fused.ranking.iter().any(|(id, _)| *id == 100));

    // Weights sum to N = 3 and are all non-negative.
    let total: f64 = values(&fused.weights).iter().sum();
    close(total, 3.0, 1e-9);
    assert!(values(&fused.weights).iter().all(|&w| w >= 0.0));

    // The ranks-only channel is flagged and carried at its default weight; the
    // scored channels are not flagged ranks-only.
    assert_eq!(
        fused.flags.get(&key("r")),
        Some(&ChannelFlag::RanksOnlyDefaultWeighted)
    );
    assert_ne!(
        fused.flags.get(&key("a")),
        Some(&ChannelFlag::RanksOnlyDefaultWeighted)
    );

    // The discrimination reads behind the weights are surfaced per fused channel.
    assert_eq!(fused.discrimination.len(), 3);
    assert!(fused.discrimination.get(&key("a")).unwrap().raw_separation.is_some());
    assert_eq!(fused.discrimination.get(&key("r")).unwrap().raw_separation, None);

    // Every baseline is stone-cold, so no channel qualifies as discriminating and
    // the diagnostics stay at the honest "no signal" (0, 0) rather than asserting
    // confidence from a first sight of data.
    assert_eq!(f(fused.confidence), 0.0);
    assert_eq!(f(fused.conflict), 0.0);
}

// --- 1b. diagnostics fire only for evidence-backed channels ------------------------

/// A state whose channels a and b carry warm separation baselines seeded just below
/// the given raw read, so both standardize positive (g >= 1) and qualify as
/// discriminating.
fn warm_two_channel_state(r: f64) -> RuffleState {
    let mut state = empty_state();
    for name in ["a", "b"] {
        state.channels.insert(
            key(name),
            ChannelSummary {
                separation: baseline(r - 1.0, 1.0, 6.0),
                reference: MeanVar::new(),
                tag: tag(),
            },
        );
    }
    state
}

#[test]
fn diagnostics_fire_once_baselines_are_backed() {
    let a = chan("a", None);
    let b = chan("b", None);
    let state = warm_two_channel_state(raw_sep(0));
    let mut fz = Fuser::resume(&[a.clone(), b.clone()], state, FuseConfig::default()).unwrap();

    // Identical pools: the discriminating channels agree completely.
    let fused = fz.fuse(&[scored_obs(&a, 0), scored_obs(&b, 0)], &exp);
    close(f(fused.confidence), 1.0, 1e-12);
    close(f(fused.conflict), 0.0, 1e-12);
    close(f(fused.confidence) + f(fused.conflict), 1.0, 1e-9);
}

#[test]
fn empty_channel_does_not_corrupt_diagnostics() {
    // A registered channel that surfaced NOTHING must not enter the top-set overlap:
    // its empty set would zero the intersection and assert maximal conflict on a
    // query where two live channels agree perfectly. Common and legitimate:
    // an image facet finding no matches for a text-only query.
    let a = chan("a", None);
    let b = chan("b", None);
    let c = chan("c", None);
    let mut state = warm_two_channel_state(raw_sep(0));
    state.channels.insert(
        key("c"),
        ChannelSummary {
            separation: baseline(2.0, 1.0, 6.0),
            reference: MeanVar::new(),
            tag: tag(),
        },
    );
    let mut fz = Fuser::resume(
        &[a.clone(), b.clone(), c.clone()],
        state,
        FuseConfig::default(),
    )
    .unwrap();

    let empty: Vec<(u32, Val)> = Vec::new();
    let fused = fz.fuse(&[
        scored_obs(&a, 0),
        scored_obs(&b, 0),
        ChannelInput::scored(&c, empty),
    ], &exp);
    close(f(fused.confidence), 1.0, 1e-12);
    close(f(fused.conflict), 0.0, 1e-12);
}

/// The raw separation of an arbitrary scored pool against cold baselines.
fn raw_sep_of_pool(pool: &[(u32, f64)]) -> f64 {
    let read = discriminate(
        &soft(pool),
        &MeanVar::new(),
        &MeanVar::new(),
        &DiscriminationConfig::default(),
        &exp,
    );
    f(read.raw_separation.expect("separation defined for this pool"))
}

/// A state whose named channels carry warm separation baselines seeded just below
/// `r`, so each standardizes positive (g >= 1) and qualifies for diagnostics.
fn warm_state_for(names: &[&str], r: f64) -> RuffleState {
    let mut state = empty_state();
    for name in names {
        state.channels.insert(
            key(name),
            ChannelSummary {
                separation: baseline(r - 1.0, 1.0, 6.0),
                reference: MeanVar::new(),
                tag: tag(),
            },
        );
    }
    state
}

#[test]
fn diagnostic_top_sets_are_truncated_to_top_m() {
    // Two channels agree exactly on their 10 best-scored items but have disjoint
    // 22-item tails. The diagnostic overlap is over the top-m sets (m = top_m = 10),
    // so confidence must read 1.0; feeding whole pools into the overlap instead
    // would dilute the intersection with the disjoint tails.
    let spikes = |()| (0..10u32).map(|i| (100 + i, 10.0 + 0.05 * i as f64));
    let mut pool_a: Vec<(u32, f64)> = (0..22u32).map(|i| (i, 0.01 * i as f64)).collect();
    pool_a.extend(spikes(()));
    let mut pool_b: Vec<(u32, f64)> = (0..22u32).map(|i| (200 + i, 0.01 * i as f64)).collect();
    pool_b.extend(spikes(()));

    let a = chan("a", None);
    let b = chan("b", None);
    let state = warm_state_for(&["a", "b"], raw_sep_of_pool(&pool_a));
    let mut fz = Fuser::resume(&[a.clone(), b.clone()], state, FuseConfig::default()).unwrap();

    let fused = fz.fuse(&[
        ChannelInput {
            key: key("a"),
            items: soft(&pool_a),
        },
        ChannelInput {
            key: key("b"),
            items: soft(&pool_b),
        },
    ], &exp);
    close(f(fused.confidence), 1.0, 1e-12);
}

#[test]
fn diagnostic_pool_exactly_at_top_m_reads_whole_pool() {
    // A qualifying pool of EXACTLY top_m items: the top-m set is the whole pool, no
    // selection needed, and the fuse must not panic on the boundary (an off-by-one
    // in the selection guard indexes out of bounds here).
    let pool: Vec<(u32, f64)> = (0..10u32).map(|i| (i, i as f64)).collect();
    assert_eq!(pool.len(), DiscriminationConfig::default().top_m);

    let a = chan("a", None);
    let b = chan("b", None);
    let state = warm_state_for(&["a", "b"], raw_sep_of_pool(&pool));
    let mut fz = Fuser::resume(&[a.clone(), b.clone()], state, FuseConfig::default()).unwrap();

    let fused = fz.fuse(&[
        ChannelInput {
            key: key("a"),
            items: soft(&pool),
        },
        ChannelInput {
            key: key("b"),
            items: soft(&pool),
        },
    ], &exp);
    close(f(fused.confidence), 1.0, 1e-12);
}

#[test]
fn duplicate_channel_input_is_fused_once() {
    // The same key twice in one fuse call must not double-count the channel's vote:
    // the first input wins and the second is skipped entirely.
    let a = chan("a", None);
    let b = chan("b", None);
    let mut f1 = fuser(&[a.clone(), b.clone()], FuseConfig::default());
    let mut f2 = fuser(&[a.clone(), b.clone()], FuseConfig::default());

    let once = f1.fuse(&[scored_obs(&a, 0), scored_obs(&b, 0)], &exp);
    let duped = f2.fuse(&[scored_obs(&a, 0), scored_obs(&b, 0), scored_obs(&a, 0)], &exp);
    assert_eq!(once.ranking, duped.ranking);
    assert_eq!(once.weights, duped.weights);
}

// --- 2. the stateful update moves the baselines -----------------------------------

#[test]
fn fuse_grows_baselines_and_restandardizes() {
    // Channel a: scored, no declared reference (so it learns one from traffic), with a
    // separation baseline pre-seeded one z below the pool's read, so its standardized
    // separation is non-trivial and shifts as the baseline absorbs the read. Channel
    // b: ranks-only, so its weight is fixed at the default and a's weight tracks a's
    // own discrimination alone.
    let a = chan("a", None);
    let b = chan("b", None);
    let r = raw_sep(0);

    let mut state = empty_state();
    state.channels.insert(
        key("a"),
        ChannelSummary {
            separation: baseline(r - 1.5, 1.0, 6.0), // z(r) = (r − (r−1.5)) / 1 = 1.5
            reference: MeanVar::new(),
            tag: tag(),
        },
    );
    let mut fz = Fuser::resume(&[a.clone(), b.clone()], state, FuseConfig::default()).unwrap();

    let obs = vec![scored_obs(&a, 0), ranks_obs(&b, &[100, 101, 1, 2])];

    let fused1 = fz.fuse(&obs, &exp);
    let w_a1 = f(*fused1.weights.get(&key("a")).unwrap());
    assert_eq!(f(fz.state().channels.get(&key("a")).unwrap().separation.count()), 7.0); // 6 → 7
    assert_eq!(f(fz.state().channels.get(&key("a")).unwrap().reference.count()), 1.0); // learned: 0 → 1
    let ref_mean1 = f(fz.state().channels.get(&key("a")).unwrap().reference.mean());
    assert!(ref_mean1.is_finite() && ref_mean1 > 0.0); // refined from the observed top

    let fused2 = fz.fuse(&obs, &exp);
    let w_a2 = f(*fused2.weights.get(&key("a")).unwrap());
    assert_eq!(f(fz.state().channels.get(&key("a")).unwrap().separation.count()), 8.0); // 7 → 8
    assert_eq!(f(fz.state().channels.get(&key("a")).unwrap().reference.count()), 2.0); // 1 → 2

    // The separation baseline moved between the two fuses, so the same raw read
    // standardizes differently and the channel's weight changes.
    assert!(
        (w_a1 - w_a2).abs() > 1e-6,
        "weight should shift as the baseline moves: {w_a1} vs {w_a2}"
    );
    assert_eq!(
        fused1.flags.get(&key("b")),
        Some(&ChannelFlag::RanksOnlyDefaultWeighted)
    );
}

// --- 3. winsorize before the baseline update --------------------------------------

#[test]
fn extreme_separation_read_is_winsorized_before_update() {
    // A pool whose raw separation sits far above the seeded baseline. Winsorizing it
    // before the push keeps it from dragging the streaming mean the way the raw value
    // would.
    let a = chan("a", None);
    let r = raw_sep(0);

    // Seed a tight baseline well below r: mean 1.0, std 0.1, count 6. The winsor band
    // lies close around the mean, and r (a large ratio) lands far outside it.
    let seed = baseline(1.0, 0.01, 6.0);
    let winsorized = f(winsorize_separation(d(r), &seed, &DiscriminationConfig::default()));
    assert!(winsorized < r, "the extreme read must actually be clamped");

    // The two counterfactual baseline means: pushing the clamped value vs the raw one.
    let mut clamped_push = seed;
    clamped_push.push(d(winsorized));
    let mut raw_push = seed;
    raw_push.push(d(r));

    let mut state = empty_state();
    state.channels.insert(
        key("a"),
        ChannelSummary {
            separation: seed,
            reference: MeanVar::new(),
            tag: tag(),
        },
    );
    let mut fz = Fuser::resume(std::slice::from_ref(&a), state, FuseConfig::default()).unwrap();
    fz.fuse(&[scored_obs(&a, 0)], &exp);

    let moved = f(fz.state().channels.get(&key("a")).unwrap().separation.mean());
    // The fuser pushed the winsorized value, not the raw one.
    close(moved, f(clamped_push.mean()), 1e-12);
    assert!(
        moved < f(raw_push.mean()),
        "winsorize limited the move: {moved} should be below the raw-push mean {}",
        f(raw_push.mean())
    );
}

// --- 4. decay slows the baseline growth -------------------------------------------

#[test]
fn decay_slows_baseline_count_growth() {
    let a = chan("a", None);
    let obs = vec![scored_obs(&a, 0)];

    let mut plain = fuser(std::slice::from_ref(&a), FuseConfig::default());
    let mut decayed = fuser(
        std::slice::from_ref(&a),
        decaying(0.9),
    );

    for _ in 0..10 {
        plain.fuse(&obs, &exp);
        decayed.fuse(&obs, &exp);
    }

    let plain_count = f(plain.state().channels.get(&key("a")).unwrap().separation.count());
    let decayed_count = f(decayed.state().channels.get(&key("a")).unwrap().separation.count());
    close(plain_count, 10.0, 1e-9); // one push per fuse
    assert!(
        decayed_count < plain_count,
        "decay-then-push must grow the count more slowly: {decayed_count} vs {plain_count}"
    );
}

// --- 5. fuse_stateless degrades to RRF, weights per the prior ----------------------

#[test]
fn stateless_empty_prior_is_unweighted_rrf() {
    // No prior, no declared references: every channel reads neutral, so the weights
    // are all 1.0 and the fusion is standard, unweighted RRF.
    let a = chan("a", None);
    let b = chan("b", None);
    let cfgs = [a.clone(), b.clone()];
    let prior = empty_state();
    let obs = vec![scored_obs(&a, 0), scored_obs(&b, 0)];

    let fused = Fuser::fuse_stateless(&obs, &cfgs, &prior, &FuseConfig::default(), &exp).unwrap();
    for w in values(&fused.weights) {
        close(w, 1.0, 1e-9);
    }
    // With equal weights the result matches a direct unweighted RRF call.
    let direct = weighted_rrf(&obs, &fused.weights, &FuseConfig::default().fusion);
    assert_eq!(fused.ranking, direct);
}

#[test]
fn stateless_rich_prior_tilts_weights() {
    // Channel x carries a separation baseline below the pool read (so it discriminates
    // unusually well here); channel y is cold. The prior tilts weight toward x.
    let x = chan("x", None);
    let y = chan("y", None);
    let cfgs = [x.clone(), y.clone()];
    let r = raw_sep(0);

    let mut prior = empty_state();
    prior.channels.insert(
        key("x"),
        ChannelSummary {
            separation: baseline(r - 1.5, 1.0, 8.0),
            reference: MeanVar::new(),
            tag: tag(),
        },
    );
    // y left absent from the prior: it seeds cold from its config.

    let obs = vec![scored_obs(&x, 0), scored_obs(&y, 0)];
    let fused = Fuser::fuse_stateless(&obs, &cfgs, &prior, &FuseConfig::default(), &exp).unwrap();

    let total: f64 = values(&fused.weights).iter().sum();
    close(total, 2.0, 1e-9);
    assert!(
        f(*fused.weights.get(&key("x")).unwrap()) > f(*fused.weights.get(&key("y")).unwrap()),
        "the discriminating channel should carry more weight: {:?}",
        fused.weights
    );
}

#[test]
fn stateless_does_not_mutate_the_prior() {
    let a = chan("a", Some(GoodScore::new(d(0.0), d(1.0), d(5.0))));
    let cfgs = [a.clone()];
    let mut prior = empty_state();
    prior.channels.insert(
        key("a"),
        ChannelSummary {
            separation: baseline(2.0, 1.0, 6.0),
            reference: baseline(0.0, 0.25, 5.0),
            tag: tag(),
        },
    );
    let before = prior.clone();
    let _ = Fuser::fuse_stateless(&[scored_obs(&a, 0)], &cfgs, &prior, &FuseConfig::default(), &exp)
        .unwrap();
    assert_eq!(prior, before);
}

// --- 7. refresh_coupling accumulates reliability, mean, and variance --------------

/// A two-channel full-scored anchor: channel `a` = id, channel `b` = the closure.
fn anchor_of(n: u32, b: impl Fn(u32) -> f64) -> Anchor {
    let cands: Vec<u32> = (0..n).collect();
    let ca = chan("a", None);
    let cb = chan("b", None);
    Anchor::build(&cands, &[&ca, &cb], move |id, k| {
        if k == "a" {
            Some(Val(*id as f64))
        } else {
            Some(Val(b(*id)))
        }
    })
}

#[test]
fn refresh_coupling_accumulates_overlap_and_mean() {
    let pair = UnorderedPair::new(key("a"), key("b"));
    let mut fz = fuser(&[chan("a", None), chan("b", None)], FuseConfig::default());

    // b = a → rank correlation +1 over the 40 both-scored items.
    let anchor = anchor_of(40, |id| id as f64);
    fz.refresh_coupling(&anchor, &sin);
    let red = &fz.state().pairs.get(&pair).unwrap().redundancy;
    assert_eq!(f(red.count()), 40.0);
    close(f(red.mean()), 1.0, 1e-9);
    close(f(red.variance()), 0.0, 1e-12);
    assert_eq!(f(fz.state().pairs.get(&pair).unwrap().refreshes), 1.0);

    // A second identical refresh: reliability doubles, mean holds, variance stays ~0,
    // and the refresh count now clears the default min_refreshes of 2.
    fz.refresh_coupling(&anchor, &sin);
    let red = &fz.state().pairs.get(&pair).unwrap().redundancy;
    assert_eq!(f(red.count()), 80.0);
    close(f(red.mean()), 1.0, 1e-9);
    close(f(red.variance()), 0.0, 1e-12);
    assert_eq!(f(fz.state().pairs.get(&pair).unwrap().refreshes), 2.0);
}

#[test]
fn refresh_coupling_raises_variance_across_differing_strata() {
    let pair = UnorderedPair::new(key("a"), key("b"));
    let mut fz = fuser(&[chan("a", None), chan("b", None)], FuseConfig::default());

    // First stratum: b = a → +1. Second: b = −a → −1. The pooled summary now carries
    // a between-refresh variance, the stratum-stability signal.
    fz.refresh_coupling(&anchor_of(40, |id| id as f64), &sin);
    fz.refresh_coupling(&anchor_of(40, |id| -(id as f64)), &sin);
    let red = &fz.state().pairs.get(&pair).unwrap().redundancy;
    assert_eq!(f(red.count()), 80.0);
    close(f(red.mean()), 0.0, 1e-9); // +1 and −1 pool to 0
    assert!(f(red.variance()) > 0.5, "variance: {}", f(red.variance()));
}

// --- 8. what construction and resume refuse ----------------------------------------------

#[test]
fn new_refuses_invalid_config_duplicate_key_and_bad_good_score() {
    // Inverted g bounds: rejected before any query can hit them.
    let mut bad = FuseConfig::default();
    bad.discrimination.g_floor = d(5.0);
    bad.discrimination.g_upper_bound = d(4.0);
    assert!(matches!(
        Fuser::new(&[chan("a", None)], bad),
        Err(ConfigError::InvalidFuseConfig { .. })
    ));

    // Duplicate join-handle key: both registrations would write one baseline.
    assert!(matches!(
        Fuser::new(&[chan("a", None), chan("a", None)], FuseConfig::default()),
        Err(ConfigError::DuplicateChannelKey { .. })
    ));

    // A good score that cannot orient (good <= typical): refused loudly instead of
    // silently cold-starting the channel as if nothing had been declared.
    let bad_ref = chan("a", Some(GoodScore::new(d(0.5), d(0.3), d(4.0))));
    assert!(matches!(
        Fuser::new(&[bad_ref], FuseConfig::default()),
        Err(ConfigError::InvalidGoodScore { .. })
    ));
}

#[test]
fn resume_refuses_a_bumped_tag() {
    // A model swap crosses a restart, so resume
    // must refuse to continue a v2-tagged channel on baselines accumulated under v1.
    let v1 = ChannelConfig::new(
        ChannelId::new("a", "model-v1"),
        Direction::HigherIsBetter,
        None,
    );
    let mut fz = fuser(std::slice::from_ref(&v1), FuseConfig::default());
    fz.fuse(&[scored_obs(&v1, 0)], &exp);
    let state = fz.state().clone();

    let v2 = ChannelConfig::new(
        ChannelId::new("a", "model-v2"),
        Direction::HigherIsBetter,
        None,
    );
    let err = Fuser::resume(std::slice::from_ref(&v2), state, FuseConfig::default())
        .expect_err("a bumped tag over old baselines must refuse");
    assert!(matches!(
        err,
        ResumeError::State(Mismatch::Tag { ref channel, ref left, ref right })
            if channel == "a" && left == "model-v1" && right == "model-v2"
    ));
}

#[test]
fn resume_refuses_a_direction_flip() {
    let hi = ChannelConfig::new(ChannelId::new("a", "t"), Direction::HigherIsBetter, None);
    let fz = fuser(std::slice::from_ref(&hi), FuseConfig::default());
    let state = fz.state().clone();

    let lo = ChannelConfig::new(ChannelId::new("a", "t"), Direction::LowerIsBetter, None);
    let err = Fuser::resume(std::slice::from_ref(&lo), state, FuseConfig::default())
        .expect_err("a flipped direction must refuse");
    assert!(matches!(
        err,
        ResumeError::State(Mismatch::DirectionConflict { ref channel }) if channel == "a"
    ));
}

#[test]
fn resume_refuses_a_foreign_version_or_baseline_mode() {
    let a = chan("a", None);

    // A state at another format version: refused with the build's version on the left.
    let stale = aged(empty_state(), 99, StatFingerprint::STAT_VERSION);
    let err = Fuser::resume(std::slice::from_ref(&a), stale, FuseConfig::default())
        .expect_err("a foreign format version must refuse");
    assert!(matches!(
        err,
        ResumeError::State(Mismatch::FormatVersion {
            left: RuffleState::FORMAT_VERSION,
            right: 99
        })
    ));

    // A state at another statistic version: numerically incompatible summaries.
    let stale_stat = aged(empty_state(), RuffleState::FORMAT_VERSION, 1);
    let err = Fuser::resume(std::slice::from_ref(&a), stale_stat, FuseConfig::default())
        .expect_err("a foreign statistic version must refuse");
    assert!(matches!(err, ResumeError::State(Mismatch::Fingerprint)));
}

#[test]
fn resume_accepts_a_matching_state_round_trip() {
    // The everyday save/restart/resume cycle stays frictionless: same configs, same
    // tags, same directions -> resume succeeds and continues accumulating.
    let a = chan("a", None);
    let mut fz = fuser(std::slice::from_ref(&a), FuseConfig::default());
    fz.fuse(&[scored_obs(&a, 0)], &exp);
    let state = fz.state().clone();

    let mut resumed =
        Fuser::resume(std::slice::from_ref(&a), state, FuseConfig::default()).unwrap();
    resumed.fuse(&[scored_obs(&a, 0)], &exp);
    assert_eq!(f(resumed.state().channels.get(&key("a")).unwrap().separation.count()), 2.0);
}

#[test]
fn config_accessor_returns_the_configuration_in_force() {
    // A deliberately non-default knob so the accessor is pinned to THIS config.
    let mut cfg = FuseConfig::default();
    cfg.fusion.rrf_eta = d(17.0);
    let fz = Fuser::new(&[chan("a", None)], cfg).unwrap();
    assert_eq!(fz.config(), &cfg);
}

#[test]
fn refresh_coupling_decays_the_refresh_count_multiplicatively() {
    // With decay on at factor 0.5: refreshes go 0 -> 1 -> (1*0.5)+1 = 1.5.
    let pair = UnorderedPair::new(key("a"), key("b"));
    let fcfg = decaying(0.5);
    let mut fz = fuser(&[chan("a", None), chan("b", None)], fcfg);
    let anchor = anchor_of(40, |id| id as f64);
    fz.refresh_coupling(&anchor, &sin);
    close(f(fz.state().pairs.get(&pair).unwrap().refreshes), 1.0, 1e-12);
    fz.refresh_coupling(&anchor, &sin);
    close(f(fz.state().pairs.get(&pair).unwrap().refreshes), 1.5, 1e-12);
}

#[test]
fn declared_reference_seeds_variance_as_sigma_squared() {
    // GoodScore(0.1, 0.5, 6): sigma_ref = (0.5-0.1)/2 = 0.2, so the seeded reference
    // must carry variance 0.04 at count 6. Seeding happens on the channel's first
    // appearance; a ranks-only input triggers it without pushing any read, so the
    // prior is observable exactly as seeded.
    let a = chan("a", Some(GoodScore::new(d(0.1), d(0.5), d(6.0))));
    let mut fz = fuser(std::slice::from_ref(&a), FuseConfig::default());
    fz.fuse(&[ranks_obs(&a, &[1, 2, 3])], &exp);
    let reference = &fz.state().channels.get(&key("a")).unwrap().reference;
    close(f(reference.mean()), 0.1, 1e-12);
    close(f(reference.variance()), 0.04, 1e-12);
    close(f(reference.count()), 6.0, 1e-12);
}

// --- 9. determinism ----------------------------------------------------------------

#[test]
fn fuse_is_deterministic_for_equal_inputs_and_state() {
    let a = chan("a", Some(GoodScore::new(d(0.0), d(1.0), d(5.0))));
    let b = chan("b", None);
    let obs = vec![scored_obs(&a, 0), ranks_obs(&b, &[100, 5, 6, 7])];

    let mut fcfg = FuseConfig::default();
    fcfg.coupling.enabled = true;
    fcfg.coupling.min_reliability = d(1.0);
    let mut f1 = fuser(&[a.clone(), b.clone()], fcfg);
    let mut f2 = fuser(&[a.clone(), b.clone()], fcfg);

    let r1 = f1.fuse(&obs, &exp);
    let r2 = f2.fuse(&obs, &exp);
    assert_eq!(r1.ranking, r2.ranking);
    assert_eq!(r1, r2); // weights, flags, and diagnostics all match
}

#[test]
fn cold_fusion_is_plain_to_the_last_bit() {
    let a = chan("a", None);
    let b = chan("b", None);
    let r = chan("r", None);
    let cfgs = [a.clone(), b.clone(), r.clone()];
    let obs = vec![
        scored_obs(&a, 0),
        scored_obs(&b, 7),
        ranks_obs(&r, &[3, 101, 5]),
    ];
    let fused =
        Fuser::fuse_stateless(&obs, &cfgs, &empty_state(), &FuseConfig::default(), &exp).unwrap();
    assert_eq!(values(&fused.weights), vec![1.0, 1.0, 1.0]);
    let plain = weighted_rrf(&obs, &OrderedMap::new(), &FuseConfig::default().fusion);
    assert_eq!(fused.ranking, plain);
}

#[test]
fn fusing_with_given_exponentials_is_the_same_fusion() {
    let a = chan("a", Some(GoodScore::new(d(0.0), d(1.0), d(5.0))));
    let b = chan("b", None);
    let obs = vec![scored_obs(&a, 0), ranks_obs(&b, &[100, 5, 6, 7])];
    let mut f1 = fuser(&[a.clone(), b.clone()], FuseConfig::default());
    let mut f2 = fuser(&[a.clone(), b.clone()], FuseConfig::default());
    for _ in 0..7 {
        // What the first channel reads against the baselines as they stand.
        let (separation, reference) = match f1.state().channels.get(&key("a")) {
            Some(s) => (s.separation, s.reference),
            None => (MeanVar::new(), MeanVar::from_prior(d(0.0), d(0.25), d(5.0))),
        };
        let cfg = FuseConfig::default().discrimination;
        let r = ruffle::weighting::discrimination::read_items(
            &obs[0].items,
            &separation,
            &reference,
            &cfg,
        )
        .unwrap();
        let exps = [
            (
                d(libm::exp(-f(r.separation_z))),
                d(libm::exp(-f(r.goodness_z.unwrap()))),
            ),
            (d(0.0), d(0.0)),
        ];
        assert_eq!(f1.fuse_with(&obs, &exps), f2.fuse(&obs, &exp));
        assert_eq!(f1.state(), f2.state());
        let stateless = Fuser::fuse_stateless_with(
            &obs,
            &[a.clone(), b.clone()],
            f1.state(),
            f1.config(),
            &exps,
        )
        .unwrap();
        assert_eq!(stateless.ranking.len(), 32);
    }
}

#[test]
fn unregistered_inputs_leave_no_trace() {
    let a = chan("a", None);
    let b = chan("b", None);
    let stranger = chan("stranger", None);
    let mut f1 = fuser(&[a.clone(), b.clone()], FuseConfig::default());
    let mut f2 = fuser(&[a.clone(), b.clone()], FuseConfig::default());
    let with = f1.fuse(
        &[scored_obs(&a, 0), scored_obs(&stranger, 500), scored_obs(&b, 3)],
        &exp,
    );
    let without = f2.fuse(&[scored_obs(&a, 0), scored_obs(&b, 3)], &exp);
    assert_eq!(with, without);
    assert_eq!(f1.state(), f2.state());
    assert!(with.ranking.iter().all(|(id, _)| *id < 500));
}

#[test]
fn a_channel_absent_from_a_query_keeps_its_baselines() {
    let a = chan("a", None);
    let b = chan("b", None);
    let mut fz = fuser(&[a.clone(), b.clone()], decaying(0.5));
    fz.fuse(&[scored_obs(&a, 0), scored_obs(&b, 3)], &exp);
    let before = fz.state().channels.get(&key("b")).unwrap().clone();
    fz.fuse(&[scored_obs(&a, 0)], &exp);
    assert_eq!(fz.state().channels.get(&key("b")), Some(&before));
    assert_ne!(fz.state().channels.get(&key("a")), Some(&before));
}

#[test]
fn new_refuses_a_base_weight_that_is_negative_or_not_finite() {
    for w in [-1.0, f64::NAN, f64::INFINITY] {
        let c = chan("a", None).with_base_weight(d(w));
        match Fuser::new(&[chan("b", None), c], FuseConfig::default()) {
            Err(e) => assert_eq!(
                e.to_string(),
                "channel a: base weight must be finite and non-negative"
            ),
            Ok(_) => panic!("expected a refusal"),
        }
    }
    assert!(Fuser::new(
        &[chan("a", None).with_base_weight(d(0.0))],
        FuseConfig::default()
    )
    .is_ok());
}

#[test]
fn base_weights_tilt_the_fusion_by_their_ratios() {
    let heavy = |x: f64, y: f64| {
        let a = chan("a", None).with_base_weight(d(x));
        let b = chan("b", None).with_base_weight(d(y));
        let mut fz = fuser(&[a.clone(), b.clone()], FuseConfig::default());
        let fused = fz.fuse(&[scored_obs(&a, 0), scored_obs(&b, 0)], &exp);
        values(&fused.weights)
    };
    // Nothing declared, and equal declarations of any size, change nothing.
    assert_eq!(heavy(1.0, 1.0), vec![1.0, 1.0]);
    assert_eq!(heavy(7.5, 7.5), vec![1.0, 1.0]);
    // Three to one, whatever the scale, renormalized to the number of channels.
    let tilted = heavy(3.0, 1.0);
    close(tilted[0], 1.5, 1e-12);
    close(tilted[1], 0.5, 1e-12);
    close(heavy(3e300, 1e300)[0], 1.5, 1e-12);
    // Nought silences.
    assert_eq!(heavy(0.0, 2.0), vec![0.0, 2.0]);
    assert_eq!(heavy(0.0, 0.0), vec![0.0, 0.0]);
}

#[test]
fn a_silenced_channel_still_learns() {
    let a = chan("a", None).with_base_weight(d(0.0));
    let b = chan("b", None);
    let mut fz = fuser(&[a.clone(), b.clone()], FuseConfig::default());
    let fused = fz.fuse(&[scored_obs(&a, 0), ranks_obs(&b, &[900])], &exp);
    assert_eq!(f(*fused.weights.get(&key("a")).unwrap()), 0.0);
    assert_eq!(fused.ranking[0].0, 900);
    let a_summary = fz.state().channels.get(&key("a")).unwrap();
    assert_eq!(f(a_summary.separation.count()), 1.0);
}

#[test]
fn what_is_saved_can_be_resumed_after_every_query() {
    let cfgs = [
        chan("a", Some(GoodScore::new(d(0.0), d(1.0), d(5.0)))),
        chan("b", None),
        chan("never", None),
    ];
    let mut fz = fuser(&cfgs, decaying(0.9));
    for round in 0..5u32 {
        let mut obs = vec![scored_obs(&cfgs[0], round)];
        if round % 2 == 0 {
            obs.push(ranks_obs(&cfgs[1], &[round, 1 + round]));
        }
        fz.fuse(&obs, &exp);
        fz.refresh_coupling(&anchor_of(35, |id| (id * 7 % 13) as f64), &sin);
        fz = Fuser::resume(&cfgs, fz.state().clone(), *fz.config()).unwrap();
    }
}

#[test]
fn refusals_name_the_first_registration_at_fault() {
    let refused = |cfgs: &[ChannelConfig]| match Fuser::new(cfgs, FuseConfig::default()) {
        Err(e) => e.to_string(),
        Ok(_) => panic!("expected a refusal"),
    };
    assert_eq!(
        refused(&[chan("x", None), chan("y", None), chan("x", None)]),
        "duplicate channel key x in the registrations"
    );
    let bad = GoodScore::new(d(f64::NAN), d(1.0), d(1.0));
    assert_eq!(
        refused(&[chan("x", Some(bad)), chan("x", None)]),
        "channel x: declared good score is unusable: anchors must be finite and `good` must \
         exceed `typical` after orientation"
    );
    // A refused configuration comes before a refused state.
    let stale = aged(empty_state(), 1, 1);
    match Fuser::resume(&[chan("x", None), chan("x", None)], stale, FuseConfig::default()) {
        Err(e) => {
            assert_eq!(e.kind(), "config");
            assert_eq!(e.to_string(), "duplicate channel key x in the registrations");
        }
        Ok(_) => panic!("expected a refusal"),
    }
    let stale = aged(empty_state(), 1, 1);
    match Fuser::resume(&[chan("x", None)], stale, FuseConfig::default()) {
        Err(e) => {
            assert_eq!(e.kind(), "resume");
            assert_eq!(e.to_string(), "format version mismatch: 2 vs 1");
        }
        Ok(_) => panic!("expected a refusal"),
    }
    assert_eq!(ResumeError::from(Mismatch::Empty), ResumeError::State(Mismatch::Empty));
}

#[test]
fn a_channel_is_read_on_its_own() {
    let a = chan("a", Some(GoodScore::new(d(0.0), d(1.0), d(5.0))));
    let b = chan("b", None);
    let cfgs = [a.clone(), b.clone()];
    let alone = vec![scored_obs(&a, 0)];
    let beside = vec![ranks_obs(&b, &[100, 5]), scored_obs(&a, 0)];
    let louder: Vec<(u32, Double)> = (0..30).map(|i| (i, d(1e9 * f64::from(i)))).collect();
    let against = vec![ChannelInput::from_values(&b, louder), scored_obs(&a, 0)];
    let read = |obs: &[ChannelInput<u32>]| {
        let fused = fuser(&cfgs, FuseConfig::default()).fuse(obs, &exp);
        *fused.discrimination.get(&key("a")).unwrap()
    };
    assert_eq!(read(&alone), read(&beside));
    assert_eq!(read(&alone), read(&against));
}

#[test]
fn fusing_is_fusing_the_inputs_that_count() {
    let a = chan("a", None);
    let b = chan("b", None);
    let stranger = chan("stranger", None);
    let mut f1 = fuser(&[a.clone(), b.clone()], FuseConfig::default());
    let mut f2 = fuser(&[a.clone(), b.clone()], FuseConfig::default());
    let with = f1.fuse(
        &[
            scored_obs(&stranger, 500),
            scored_obs(&a, 0),
            scored_obs(&b, 3),
            scored_obs(&a, 700),
        ],
        &exp,
    );
    let without = f2.fuse(&[scored_obs(&a, 0), scored_obs(&b, 3)], &exp);
    assert_eq!(with, without);
    assert_eq!(f1.state(), f2.state());
}

#[test]
fn decay_keeps_counts_under_its_horizon() {
    let a = chan("a", None);
    let b = chan("b", None);
    let mut fz = fuser(&[a.clone(), b.clone()], decaying(0.5));
    for i in 0..80 {
        fz.fuse(&[scored_obs(&a, i), scored_obs(&b, i + 3)], &exp);
        let count = f(fz.state().channels.get(&key("a")).unwrap().separation.count());
        assert!(count > 0.0 && count <= 2.0 + 1e-12);
    }
    let count = f(fz.state().channels.get(&key("a")).unwrap().separation.count());
    assert!(count > 1.999);
}

#[test]
fn a_factor_next_to_one_keeps_counts_bounded() {
    // The largest number below one: the bound is where counts stop telling apart.
    let factor = f64::from_bits(1.0f64.to_bits() - 1);
    let top = 9007199254740992.0;
    let mut s = ruffle::MeanVar::from_prior(d(0.0), d(1.0), d(top));
    for _ in 0..10 {
        s.decay(d(factor));
        s.push(d(0.5));
        assert!(f(s.count()) <= top);
    }
}

#[test]
fn tilted_weights_sum_to_the_number_of_channels() {
    let a = chan("a", None).with_base_weight(d(0.2));
    let b = chan("b", None).with_base_weight(d(3.0));
    let c = chan("c", None).with_base_weight(d(1.0));
    let mut fz = fuser(&[a.clone(), b.clone(), c.clone()], FuseConfig::default());
    let fused = fz.fuse(
        &[scored_obs(&a, 0), scored_obs(&b, 3), scored_obs(&c, 9)],
        &exp,
    );
    let w = &fused.weights;
    let sum: f64 = (0..w.len()).map(|i| f(*w.value_at(i))).sum();
    close(sum, 3.0, 1e-13);
}

#[test]
fn fusing_without_a_trace_returns_what_a_resumed_fuser_does() {
    let a = chan("a", None);
    let b = chan("b", None);
    let configs = [a.clone(), b.clone()];
    let mut fz = fuser(&configs, FuseConfig::default());
    for i in 0..6 {
        fz.fuse(&[scored_obs(&a, i), scored_obs(&b, i + 3)], &exp);
    }
    let state = fz.state().clone();
    let obs = [scored_obs(&a, 2), scored_obs(&b, 40)];
    let traceless =
        Fuser::fuse_stateless(&obs, &configs, &state, &FuseConfig::default(), &exp).unwrap();
    let mut resumed = Fuser::resume(&configs, state, FuseConfig::default()).unwrap();
    assert_eq!(resumed.fuse(&obs, &exp), traceless);
}
