use ruffle::{
    BaselineMode, ChannelConfig, ChannelId, ConfigError, CouplingConfig, DecayConfig, Direction,
    DiscriminationConfig, Double, FuseConfig, GoodScore, RrfConfig,
};

fn d(x: f64) -> Double {
    Double::from_bits(x.to_bits())
}

fn f(x: Double) -> f64 {
    f64::from_bits(x.to_bits())
}

#[test]
fn defaults_are_conservative() {
    let cfg = FuseConfig::default();
    // Coupling and decay both off: closest to plain RRF.
    assert!(!cfg.coupling.enabled);
    assert!(!cfg.decay.enabled);
    // RRF's common rank constant.
    assert_eq!(f(cfg.fusion.rrf_eta), 60.0);
    assert_eq!(cfg.baseline_mode, BaselineMode::ZScore);
}

#[test]
fn discrimination_defaults_present() {
    let c = DiscriminationConfig::default();
    assert!(f(c.g_floor) > 0.0); // an unsure channel still votes
    assert!(f(c.g_upper_bound) > f(c.g_floor));
    assert!(f(c.g_slope) > 0.0); // the squash has a positive, finite slope
    assert!(c.top_m >= 1);
}

#[test]
fn validate_accepts_the_defaults_and_tight_boundaries() {
    FuseConfig::default().validate().unwrap();

    // Every knob at its extreme legal value still validates: the checks are
    // boundary-inclusive where the docs say they are.
    let mut edge = FuseConfig::default();
    edge.discrimination.top_eps = d(1.0); // (0, 1] includes 1
    edge.discrimination.top_m = 1;
    edge.discrimination.min_distinct_values = 2;
    edge.discrimination.denom_floor_frac = d(0.0);
    edge.discrimination.shrink_pool_size = 1;
    edge.discrimination.g_floor = d(0.0);
    edge.discrimination.g_upper_bound = edge.discrimination.g_floor.max(d(0.1));
    edge.coupling.discount_cap = d(1.0);
    edge.coupling.shrink_to_identity = d(0.0);
    edge.coupling.min_overlap = 2;
    edge.coupling.min_reliability = d(0.0);
    edge.coupling.min_refreshes = d(0.0);
    edge.coupling.stratum_stability_max_var = d(0.0);
    edge.fusion.rrf_eta = d(0.0);
    edge.decay.factor = d(0.0);
    edge.validate().unwrap();
    // Equal floor and bound is legal (a pinned weight), including at zero decay=1.
    let mut pinned = FuseConfig::default();
    pinned.discrimination.g_floor = d(2.0);
    pinned.discrimination.g_upper_bound = d(2.0);
    pinned.decay.factor = d(1.0);
    pinned.validate().unwrap();
}

/// Apply `set` to a default config and assert validation rejects it, naming `field`.
fn rejects(field: &str, set: impl Fn(&mut FuseConfig)) {
    let mut cfg = FuseConfig::default();
    set(&mut cfg);
    match cfg.validate() {
        Err(ConfigError::InvalidFuseConfig { field: f, .. }) => {
            assert_eq!(f, field, "wrong field named for {field}");
        }
        other => panic!("{field}: expected InvalidFuseConfig, got {other:?}"),
    }
}

#[test]
fn validate_rejects_each_out_of_range_knob() {
    // Discrimination. Zero and above-one pin the two range arms of top_eps; NaN pins
    // the finiteness arm of every float knob it appears on.
    rejects("discrimination.top_eps", |c| c.discrimination.top_eps = d(0.0));
    rejects("discrimination.top_eps", |c| c.discrimination.top_eps = d(1.5));
    rejects("discrimination.top_eps", |c| {
        c.discrimination.top_eps = d(f64::NAN);
    });
    rejects("discrimination.top_m", |c| c.discrimination.top_m = 0);
    rejects("discrimination.min_distinct_values", |c| {
        c.discrimination.min_distinct_values = 1;
    });
    rejects("discrimination.denom_floor_frac", |c| {
        c.discrimination.denom_floor_frac = d(-0.1);
    });
    rejects("discrimination.denom_floor_frac", |c| {
        c.discrimination.denom_floor_frac = d(f64::INFINITY);
    });
    rejects("discrimination.winsor_z", |c| {
        c.discrimination.winsor_z = d(0.0)
    });
    rejects("discrimination.winsor_z", |c| {
        c.discrimination.winsor_z = d(f64::NAN);
    });
    rejects("discrimination.min_count_for_z", |c| {
        c.discrimination.min_count_for_z = d(0.0);
    });
    rejects("discrimination.shrink_pool_size", |c| {
        c.discrimination.shrink_pool_size = 0;
    });
    rejects("discrimination.g_floor", |c| {
        c.discrimination.g_floor = d(-1.0)
    });
    rejects("discrimination.g_floor", |c| {
        c.discrimination.g_floor = d(f64::NAN);
    });
    // An inverted floor/bound pair names the bound (the pair constraint lives there).
    rejects("discrimination.g_upper_bound", |c| {
        c.discrimination.g_floor = d(5.0);
        c.discrimination.g_upper_bound = d(4.0);
    });
    rejects("discrimination.g_upper_bound", |c| {
        c.discrimination.g_upper_bound = d(0.0);
    });
    // Zero bound with zero floor isolates the strict `> 0.0` arm: the `>= g_floor`
    // arm is satisfied, so only strict positivity can reject it.
    rejects("discrimination.g_upper_bound", |c| {
        c.discrimination.g_floor = d(0.0);
        c.discrimination.g_upper_bound = d(0.0);
    });
    rejects("discrimination.g_slope", |c| c.discrimination.g_slope = d(0.0));
    rejects("discrimination.g_slope", |c| {
        c.discrimination.g_slope = d(-2.0);
    });

    // Coupling.
    rejects("coupling.discount_cap", |c| c.coupling.discount_cap = d(-0.1));
    rejects("coupling.discount_cap", |c| c.coupling.discount_cap = d(1.1));
    rejects("coupling.discount_cap", |c| {
        c.coupling.discount_cap = d(f64::NAN);
    });
    rejects("coupling.shrink_to_identity", |c| {
        c.coupling.shrink_to_identity = d(-0.1);
    });
    rejects("coupling.shrink_to_identity", |c| {
        c.coupling.shrink_to_identity = d(1.1);
    });
    rejects("coupling.min_overlap", |c| c.coupling.min_overlap = 1);
    rejects("coupling.min_reliability", |c| {
        c.coupling.min_reliability = d(-1.0);
    });
    rejects("coupling.min_refreshes", |c| {
        c.coupling.min_refreshes = d(-1.0)
    });
    rejects("coupling.min_refreshes", |c| {
        c.coupling.min_refreshes = d(f64::NAN);
    });
    rejects("coupling.stratum_stability_max_var", |c| {
        c.coupling.stratum_stability_max_var = d(-0.5);
    });

    // Fusion and decay.
    rejects("fusion.rrf_eta", |c| c.fusion.rrf_eta = d(-1.0));
    rejects("fusion.rrf_eta", |c| c.fusion.rrf_eta = d(f64::NAN));
    rejects("decay.factor", |c| c.decay.factor = d(-0.1));
    rejects("decay.factor", |c| c.decay.factor = d(1.1));
    rejects("decay.factor", |c| c.decay.factor = d(f64::NAN));
}

#[test]
fn channel_config_round_trips_serde() {
    let cfg = ChannelConfig::new(
        ChannelId::new("clip", "clip-vit-b32-rev1"),
        Direction::HigherIsBetter,
        Some(GoodScore::new(d(0.3), d(0.5), d(8.0))),
    );
    let cloned = cfg.clone();
    assert_eq!(cfg, cloned);
}

#[test]
fn defaults_are_the_documented_numbers() {
    let c = DiscriminationConfig::default();
    assert_eq!(f(c.top_eps), 0.10);
    assert_eq!(c.top_m, 10);
    assert_eq!(c.min_distinct_values, 8);
    assert_eq!(f(c.denom_floor_frac), 0.75);
    assert_eq!(f(c.winsor_z), 2.5);
    assert_eq!(f(c.min_count_for_z), 5.0);
    assert_eq!(c.shrink_pool_size, 20);
    assert_eq!(f(c.g_upper_bound), 4.0);
    assert_eq!(f(c.g_floor), 0.25);
    assert_eq!(f(c.g_slope), 1.0);
    assert_eq!(f(c.g_deviation_keep), 1.0);
    let c = CouplingConfig::default();
    assert!(!c.enabled);
    assert_eq!(f(c.discount_cap), 0.5);
    assert_eq!(f(c.shrink_to_identity), 0.5);
    assert_eq!(c.min_overlap, 30);
    assert_eq!(f(c.min_reliability), 10.0);
    assert_eq!(f(c.min_refreshes), 2.0);
    assert_eq!(f(c.stratum_stability_max_var), 0.25);
    assert_eq!(f(RrfConfig::default().rrf_eta), 60.0);
    assert_eq!(f(DecayConfig::default().factor), 0.98);
}

#[test]
fn the_first_knob_out_of_range_is_named_with_its_reason() {
    let mut cfg = FuseConfig::default();
    cfg.decay.factor = d(2.0);
    cfg.coupling.min_overlap = 1;
    cfg.discrimination.g_deviation_keep = d(f64::INFINITY);
    match cfg.validate() {
        Err(e) => assert_eq!(
            e.to_string(),
            "invalid fuse configuration: discrimination.g_deviation_keep: must be finite"
        ),
        Ok(()) => panic!("expected a refusal"),
    }
    cfg.discrimination.g_deviation_keep = d(-3.0);
    match cfg.validate() {
        Err(e) => assert_eq!(
            e.to_string(),
            "invalid fuse configuration: coupling.min_overlap: must be at least 2 (a \
             correlation needs two points)"
        ),
        Ok(()) => panic!("expected a refusal"),
    }
}

#[test]
fn registrations_start_with_the_neutral_base_weight() {
    let c = ChannelConfig::new(ChannelId::new("a", "t"), Direction::LowerIsBetter, None);
    assert_eq!(f(c.base_weight), 1.0);
    let heavy = c.clone().with_base_weight(d(2.5));
    assert_eq!(f(heavy.base_weight), 2.5);
    assert_eq!(heavy.id, c.id);
    assert_eq!(heavy.direction, c.direction);
    assert_eq!(c.duplicate(), c);
}
