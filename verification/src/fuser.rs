//! The top-level fuser that ties discrimination, coupling, and fusion together.
//!
//! [`Fuser::fuse`] is the stateful entry point: score, weight, fuse, then update the
//! persistent baselines. The exponential and the sine are handed in by the caller; each
//! entry point that takes one has a counterpart that takes its results instead.
use crate::config::{
    first_unmet, is_non_negative, non_negative, requirement, valid, ChannelConfig,
    DiscriminationConfig, FuseConfig,
};
use crate::double::{
    fadd, fcount, fdiv, feq, fle, flt, fmax, fmul, fone, fzero, Double,
};
use crate::error::{ConfigError, Mismatch, ResumeError};
use crate::identity::identifies;
use crate::ingest::anchor::Anchor;
use crate::ingest::input::{ChannelInput, Items};
use crate::keys::{StatFingerprint, UnorderedPair, STAT_VERSION};
use crate::numeric::{fsum, sum_between};
use crate::ordered::{holds_key, lemma_entry, map_of, text_before, MapKey, OrderedMap};
use crate::pooling::{lemma_prefix_map, Pool};
use crate::score::{oriented, reference_scale, usable, Direction};
use crate::state::{
    decayed_channel, decayed_pair, pairs_canonical, ChannelSummary, PairSummary, RuffleState,
    FORMAT_VERSION,
};
use crate::summary::{empty_summary, pooled, prior, pushed, MeanVar};
use crate::weighting::coupling::{
    all_rank_correlations, anchor_correlations, copula_argument, coupled, coupled_weights,
    diagnosed, diagnostics, id_lists, keyed, keyed_by, names, observed, PairBaseline,
    PairObservation,
};
use crate::weighting::discrimination::{
    discriminate_with, discrimination, items_reading, neutral, neutral_read, read_items, readable,
    squash_argument, squash_input, winsorize_separation, winsorized, ChannelDiscrimination,
    PoolReading,
};
use crate::weighting::fusion::{fuse_inputs, fused_ranking, inputs, rank_items, walk};
use std::hash::Hash;
use vstd::prelude::*;

verus! {

/// Why a channel was not weighted by its full discrimination score.
#[derive(Clone, Copy, Debug, PartialEq, Eq, Structural)]
#[non_exhaustive]
pub enum ChannelFlag {
    /// The channel supplied ranks only, so it was carried at the neutral default weight.
    RanksOnlyDefaultWeighted,
    /// The score pool's bulk had no usable scale to measure the top's elevation against.
    DegenerateSeparation,
    /// The channel had no usable good-score reference yet, so it was weighted on
    /// separation alone.
    NoReference,
}

/// The outcome of fusing one query: the merged ranking plus the weights, flags, and
/// diagnostics behind it.
#[derive(Clone, Debug, PartialEq)]
#[non_exhaustive]
pub struct Fused<Id> {
    /// The fused ranking, best first, each item with its fused score.
    pub ranking: Vec<(Id, Double)>,
    /// The per-channel weights actually used.
    pub weights: OrderedMap<String, Double>,
    /// Per-channel flags explaining any non-standard weighting; a channel absent from the
    /// map was weighted on its full discrimination score.
    pub flags: OrderedMap<String, ChannelFlag>,
    /// The per-channel discrimination reads behind the weights.
    pub discrimination: OrderedMap<String, ChannelDiscrimination>,
    /// How much the discriminating channels agree on which items are relevant.
    pub confidence: Double,
    /// One minus `confidence`, over the same discriminating channels.
    pub conflict: Double,
}

/// Fuses several retrieval channels' ranked outputs into one ranking.
///
/// A fuser holds the channel registrations, the fusion configuration, and the persistent
/// baselines it accumulates across queries.
#[derive(Debug, Clone)]
pub struct Fuser {
    configs: OrderedMap<String, ChannelConfig>,
    state: RuffleState,
    cfg: FuseConfig,
}

/// A registration's key stands before it in the list.
pub open spec fn repeats(configs: Seq<ChannelConfig>, i: int) -> bool {
    exists|j: int| 0 <= j < i && (#[trigger] configs[j]).id.key@ == configs[i].id.key@
}

/// A registration's declared good score, where there is one, is usable.
pub open spec fn declares_well(c: ChannelConfig) -> bool {
    c.good_score is Some ==> usable(c.good_score->0, c.direction)
}

/// A registration is accepted: its key is new, its good score usable, and its base weight
/// finite and not negative.
pub open spec fn registrable_at(configs: Seq<ChannelConfig>, i: int) -> bool {
    &&& !repeats(configs, i)
    &&& declares_well(configs[i])
    &&& is_non_negative(configs[i].base_weight)
}

/// The registrations and the configuration are accepted.
pub open spec fn registrable(configs: Seq<ChannelConfig>, cfg: FuseConfig) -> bool {
    valid(cfg) && forall|i: int| 0 <= i < configs.len() ==> #[trigger] registrable_at(configs, i)
}

/// Why a declared good score is rejected.
pub open spec fn unusable_reason() -> Seq<char> {
    "anchors must be finite and `good` must exceed `typical` after orientation"@
}

/// The refusal that registrations meet: the first knob out of range, and then the first
/// registration that is not accepted.
pub open spec fn registration_refusal(
    configs: Seq<ChannelConfig>,
    cfg: FuseConfig,
    e: ConfigError,
) -> bool {
    if !valid(cfg) {
        exists|i: int| #[trigger]
            first_unmet(cfg, i) && e is InvalidFuseConfig && e->InvalidFuseConfig_field@
                == requirement(cfg, i).1 && e->InvalidFuseConfig_reason@ == requirement(cfg, i).2
    } else {
        exists|i: int|
            0 <= i < configs.len() && !(#[trigger] registrable_at(configs, i)) && (forall|h: int|
                0 <= h < i ==> #[trigger] registrable_at(configs, h)) && if repeats(configs, i) {
                e is DuplicateChannelKey && e->DuplicateChannelKey_key@ == configs[i].id.key@
            } else if !declares_well(configs[i]) {
                e is InvalidGoodScore && e->InvalidGoodScore_channel@ == configs[i].id.key@
                    && e->InvalidGoodScore_reason@ == unusable_reason()
            } else {
                e is InvalidBaseWeight && e->InvalidBaseWeight_channel@ == configs[i].id.key@
            }
    }
}

/// A state records another orientation for a registered channel.
pub open spec fn contradicts(c: ChannelConfig, state: RuffleState) -> bool {
    state.stats().directions@.contains_key(c.id.key@) && state.stats().directions@[c.id.key@]
        != c.direction
}

/// A state was accumulated under another tag of a registered channel.
pub open spec fn swapped(c: ChannelConfig, state: RuffleState) -> bool {
    state.channel_table()@.contains_key(c.id.key@) && state.channel_table()@[c.id.key@].tag@
        != c.id.tag@
}

/// A registration agrees with a state.
pub open spec fn agrees(c: ChannelConfig, state: RuffleState) -> bool {
    !contradicts(c, state) && !swapped(c, state)
}

/// A state can be continued under the registrations and the configuration.
pub open spec fn compatible(
    configs: Seq<ChannelConfig>,
    state: RuffleState,
    cfg: FuseConfig,
) -> bool {
    &&& state.version() == FORMAT_VERSION
    &&& state.stats().stat_version == STAT_VERSION
    &&& state.stats().baseline_mode == cfg.baseline_mode
    &&& forall|i: int| 0 <= i < configs.len() ==> agrees(#[trigger] configs[i], state)
}

/// The refusal that a state meets.
pub open spec fn state_refusal(
    configs: Seq<ChannelConfig>,
    state: RuffleState,
    cfg: FuseConfig,
    e: Mismatch,
) -> bool {
    if state.version() != FORMAT_VERSION {
        e == (Mismatch::FormatVersion { left: FORMAT_VERSION, right: state.version() })
    } else if state.stats().stat_version != STAT_VERSION || state.stats().baseline_mode
        != cfg.baseline_mode {
        e == Mismatch::Fingerprint
    } else {
        exists|i: int|
            0 <= i < configs.len() && !agrees(#[trigger] configs[i], state) && (forall|h: int|
                0 <= h < i ==> agrees(#[trigger] configs[h], state)) && if contradicts(
                configs[i],
                state,
            ) {
                e is DirectionConflict && e->DirectionConflict_channel@ == configs[i].id.key@
            } else {
                e is Tag && e->Tag_channel@ == configs[i].id.key@ && e->Tag_left@
                    == state.channel_table()@[configs[i].id.key@].tag@ && e->Tag_right@
                    == configs[i].id.tag@
            }
    }
}

/// The first `n` registrations by key.
pub open spec fn registered(configs: Seq<ChannelConfig>, n: int) -> Map<Seq<char>, ChannelConfig>
    decreases n,
{
    if n <= 0 {
        Map::empty()
    } else {
        registered(configs, n - 1).insert(configs[n - 1].id.key@, configs[n - 1])
    }
}

/// The orientations of the first `n` registrations by key.
pub open spec fn orientations(configs: Seq<ChannelConfig>, n: int) -> Map<Seq<char>, Direction>
    decreases n,
{
    if n <= 0 {
        Map::empty()
    } else {
        orientations(configs, n - 1).insert(configs[n - 1].id.key@, configs[n - 1].direction)
    }
}

/// The summary that a registration seeds: the declared reference, and nothing else.
pub open spec fn seed(c: ChannelConfig) -> ChannelSummary {
    ChannelSummary {
        separation: empty_summary(),
        reference: if c.good_score is Some && usable(c.good_score->0, c.direction) {
            let sigma = reference_scale(c.good_score->0, c.direction);
            prior(
                oriented(c.direction, c.good_score->0.typical),
                fmul(sigma, sigma),
                c.good_score->0.weight,
            )
        } else {
            empty_summary()
        },
        tag: c.id.tag,
    }
}

/// Validates the registrations and configuration on their own: every knob in range, every
/// key distinct, every declared good score usable, every base weight finite and not
/// negative.
pub fn validate_registrations(configs: &[ChannelConfig], cfg: &FuseConfig) -> (r: Result<
    (),
    ConfigError,
>)
    ensures
        r is Ok <==> registrable(configs@, *cfg),
        r is Err ==> registration_refusal(configs@, *cfg, r->Err_0),
{
    match cfg.validate() {
        Ok(_) => {},
        Err(e) => {
            return Err(e);
        },
    }
    let mut seen: OrderedMap<String, usize> = OrderedMap::new();
    let mut i: usize = 0;
    while i < configs.len()
        invariant
            valid(*cfg),
            i <= configs@.len(),
            seen.wf(),
            forall|k: Seq<char>| #[trigger]
                seen@.contains_key(k) <==> exists|j: int|
                    0 <= j < i && (#[trigger] configs@[j]).id.key@ == k,
            forall|h: int| 0 <= h < i ==> #[trigger] registrable_at(configs@, h),
        decreases configs@.len() - i,
    {
        let c = &configs[i];
        if seen.contains_key(&c.id.key) {
            assert(repeats(configs@, i as int));
            assert(!registrable_at(configs@, i as int));
            return Err(ConfigError::DuplicateChannelKey { key: c.id.key.clone() });
        }
        assert(!repeats(configs@, i as int));
        match c.good_score {
            Some(good_score) => {
                if good_score.oriented(c.direction).is_none() {
                    assert(!registrable_at(configs@, i as int));
                    return Err(
                        ConfigError::InvalidGoodScore {
                            channel: c.id.key.clone(),
                            reason:
                                "anchors must be finite and `good` must exceed `typical` after orientation",
                        },
                    );
                }
            },
            None => {},
        }
        if !non_negative(c.base_weight) {
            assert(!registrable_at(configs@, i as int));
            return Err(ConfigError::InvalidBaseWeight { channel: c.id.key.clone() });
        }
        assert(registrable_at(configs@, i as int));
        let ghost before = seen@;
        seen.insert(c.id.key.clone(), i);
        proof {
            assert forall|k: Seq<char>| #[trigger] seen@.contains_key(k) <==> exists|j: int|
                0 <= j < i + 1 && (#[trigger] configs@[j]).id.key@ == k by {
                if k == c.id.key@ {
                    assert(configs@[i as int].id.key@ == k);
                }
                if before.contains_key(k) {
                    let j = choose|j: int| 0 <= j < i && (#[trigger] configs@[j]).id.key@ == k;
                    assert(configs@[j].id.key@ == k);
                }
            }
        }
        i += 1;
    }
    Ok(())
}

/// Validates the registrations against a persisted state: the same compatibility gate that
/// a merge of states runs.
pub fn validate_against_state(
    configs: &[ChannelConfig],
    state: &RuffleState,
    cfg: &FuseConfig,
) -> (r: Result<(), Mismatch>)
    requires
        state.wf(),
    ensures
        r is Ok <==> compatible(configs@, *state, *cfg),
        r is Err ==> state_refusal(configs@, *state, *cfg, r->Err_0),
{
    if state.format_version() != FORMAT_VERSION {
        return Err(
            Mismatch::FormatVersion { left: FORMAT_VERSION, right: state.format_version() },
        );
    }
    if state.fingerprint().stat_version != STAT_VERSION || state.fingerprint().baseline_mode
        != cfg.baseline_mode {
        return Err(Mismatch::Fingerprint);
    }
    let mut i: usize = 0;
    while i < configs.len()
        invariant
            state.wf(),
            state.version() == FORMAT_VERSION,
            state.stats().stat_version == STAT_VERSION,
            state.stats().baseline_mode == cfg.baseline_mode,
            i <= configs@.len(),
            forall|h: int| 0 <= h < i ==> agrees(#[trigger] configs@[h], *state),
        decreases configs@.len() - i,
    {
        let c = &configs[i];
        match state.fingerprint().directions.get(&c.id.key) {
            Some(dir) => {
                if *dir != c.direction {
                    assert(!agrees(configs@[i as int], *state));
                    return Err(Mismatch::DirectionConflict { channel: c.id.key.clone() });
                }
            },
            None => {},
        }
        match state.channel_map().get(&c.id.key) {
            Some(summary) => {
                if summary.tag != c.id.tag {
                    assert(!agrees(configs@[i as int], *state));
                    return Err(
                        Mismatch::Tag {
                            channel: c.id.key.clone(),
                            left: summary.tag.clone(),
                            right: c.id.tag.clone(),
                        },
                    );
                }
            },
            None => {},
        }
        assert(agrees(configs@[i as int], *state));
        i += 1;
    }
    Ok(())
}

/// Builds the per-channel lookup keyed by each registration's key.
pub fn config_lookup(configs: &[ChannelConfig]) -> (lookup: OrderedMap<String, ChannelConfig>)
    ensures
        lookup.wf(),
        lookup@ == registered(configs@, configs@.len() as int),
{
    let mut lookup: OrderedMap<String, ChannelConfig> = OrderedMap::new();
    let mut i: usize = 0;
    while i < configs.len()
        invariant
            i <= configs@.len(),
            lookup.wf(),
            lookup@ == registered(configs@, i as int),
        decreases configs@.len() - i,
    {
        lookup.insert(configs[i].id.key.clone(), configs[i].duplicate());
        i += 1;
    }
    lookup
}

/// Seeds a fresh per-channel summary from its registration.
pub fn seed_summary(cfg: &ChannelConfig) -> (s: ChannelSummary)
    ensures
        s == seed(*cfg),
{
    let reference = match cfg.good_score {
        Some(good_score) => match good_score.oriented(cfg.direction) {
            Some(reference) => MeanVar::from_prior(
                reference.mu_ref,
                reference.sigma_ref * reference.sigma_ref,
                good_score.weight,
            ),
            None => MeanVar::new(),
        },
        None => MeanVar::new(),
    };
    ChannelSummary::with_reference(cfg.id.tag.clone(), reference)
}

/// The channel at `i` enters the fusion: it is registered, has a baseline, and no earlier
/// input has its key.
pub open spec fn enters<Id>(
    obs: Seq<ChannelInput<Id>>,
    registry: Map<Seq<char>, ChannelConfig>,
    channels: Map<Seq<char>, ChannelSummary>,
    i: int,
) -> bool {
    &&& registry.contains_key(obs[i].key@)
    &&& channels.contains_key(obs[i].key@)
    &&& forall|j: int| 0 <= j < i ==> (#[trigger] obs[j]).key@ != obs[i].key@
}

/// The inputs among the first `n` that enter the fusion.
pub open spec fn entering<Id>(
    obs: Seq<ChannelInput<Id>>,
    registry: Map<Seq<char>, ChannelConfig>,
    channels: Map<Seq<char>, ChannelSummary>,
    n: int,
) -> Seq<ChannelInput<Id>>
    decreases n,
{
    if n <= 0 {
        Seq::empty()
    } else if enters(obs, registry, channels, n - 1) {
        entering(obs, registry, channels, n - 1).push(obs[n - 1])
    } else {
        entering(obs, registry, channels, n - 1)
    }
}

/// The discrimination reads of the first `n` inputs that enter, by channel.
pub open spec fn reads_of<Id>(
    obs: Seq<ChannelInput<Id>>,
    registry: Map<Seq<char>, ChannelConfig>,
    channels: Map<Seq<char>, ChannelSummary>,
    discs: Seq<ChannelDiscrimination>,
    n: int,
) -> Map<Seq<char>, ChannelDiscrimination>
    decreases n,
{
    if n <= 0 {
        Map::empty()
    } else if enters(obs, registry, channels, n - 1) {
        reads_of(obs, registry, channels, discs, n - 1).insert(obs[n - 1].key@, discs[n - 1])
    } else {
        reads_of(obs, registry, channels, discs, n - 1)
    }
}

/// The flag that explains a channel's weighting: ranks alone, then a degenerate separation,
/// then a missing reference.
pub open spec fn flag_of<Id>(items: Items<Id>, disc: ChannelDiscrimination) -> Option<ChannelFlag> {
    if items is Ranks {
        Some(ChannelFlag::RanksOnlyDefaultWeighted)
    } else if disc.degenerate_separation {
        Some(ChannelFlag::DegenerateSeparation)
    } else if disc.reference_cold {
        Some(ChannelFlag::NoReference)
    } else {
        None
    }
}

/// The flags of the first `n` inputs that enter, by channel.
pub open spec fn flags_of<Id>(
    obs: Seq<ChannelInput<Id>>,
    registry: Map<Seq<char>, ChannelConfig>,
    channels: Map<Seq<char>, ChannelSummary>,
    discs: Seq<ChannelDiscrimination>,
    n: int,
) -> Map<Seq<char>, ChannelFlag>
    decreases n,
{
    if n <= 0 {
        Map::empty()
    } else {
        let before = flags_of(obs, registry, channels, discs, n - 1);
        let flag = flag_of(obs[n - 1].items, discs[n - 1]);
        if enters(obs, registry, channels, n - 1) && flag is Some {
            before.insert(obs[n - 1].key@, flag->0)
        } else {
            before
        }
    }
}

/// A channel discriminates: it has a separation read, performs at or above its norm, and
/// that norm has enough observations behind it.
pub open spec fn discriminates(
    disc: ChannelDiscrimination,
    summary: ChannelSummary,
    cfg: DiscriminationConfig,
) -> bool {
    &&& disc.raw_separation is Some
    &&& fle(fone(), disc.g)
    &&& fle(cfg.min_count_for_z, summary.separation.count)
}

/// The ids of a channel's `m` best items.
pub open spec fn top_ids<Id>(items: Items<Id>, m: int) -> Seq<Id> {
    let n = if m < items.size() {
        m
    } else {
        items.size() as int
    };
    Seq::new(n as nat, |t: int| items.id_at(walk(items)[t] as int))
}

/// The top ids of the discriminating channels among the first `n` inputs that enter.
pub open spec fn top_lists<Id>(
    obs: Seq<ChannelInput<Id>>,
    registry: Map<Seq<char>, ChannelConfig>,
    channels: Map<Seq<char>, ChannelSummary>,
    cfg: DiscriminationConfig,
    discs: Seq<ChannelDiscrimination>,
    n: int,
) -> Seq<Seq<Id>>
    decreases n,
{
    if n <= 0 {
        Seq::empty()
    } else {
        let before = top_lists(obs, registry, channels, cfg, discs, n - 1);
        if enters(obs, registry, channels, n - 1) && discriminates(
            discs[n - 1],
            channels[obs[n - 1].key@],
            cfg,
        ) {
            before.push(top_ids(obs[n - 1].items, cfg.top_m as int))
        } else {
            before
        }
    }
}

/// The discrimination weights of a set of reads.
pub open spec fn gains(reads: Map<Seq<char>, ChannelDiscrimination>) -> Map<Seq<char>, Double> {
    reads.map_values(|d: ChannelDiscrimination| d.g)
}

/// The redundancy baselines of the pair summaries.
pub open spec fn baselines(pairs: Map<(Seq<char>, Seq<char>), PairSummary>) -> Map<
    (Seq<char>, Seq<char>),
    PairBaseline,
> {
    pairs.map_values(
        |s: PairSummary| PairBaseline { redundancy: s.redundancy, refreshes: s.refreshes },
    )
}

/// `list` holds the members of `set` in increasing order.
pub open spec fn enumerates(list: Seq<Seq<char>>, set: Set<Seq<char>>) -> bool {
    &&& forall|i: int, j: int|
        #![trigger list[i], list[j]]
        0 <= i < j < list.len() ==> text_before(list[i], list[j])
    &&& forall|k: Seq<char>| #[trigger] set.contains(k) <==> list.contains(k)
}

/// The members of a set in increasing order.
pub open spec fn in_key_order(set: Set<Seq<char>>) -> Seq<Seq<char>> {
    choose|list: Seq<Seq<char>>| enumerates(list, set)
}

/// The largest of the first `n` base weights, and zero where none is above it.
pub open spec fn top_base(bases: Seq<Double>, n: int) -> Double
    decreases n,
{
    if n <= 0 {
        fzero()
    } else {
        fmax(top_base(bases, n - 1), bases[n - 1])
    }
}

/// The base weights declare nothing: they are all alike and above zero.
pub open spec fn level_bases(bases: Seq<Double>) -> bool {
    let top = top_base(bases, bases.len() as int);
    flt(fzero(), top) && forall|i: int| 0 <= i < bases.len() ==> feq(#[trigger] bases[i], top)
}

/// Each weight times its base weight, the base weights taken relative to the largest.
pub open spec fn tilted_raw(weights: Seq<Double>, bases: Seq<Double>) -> Seq<Double> {
    let top = top_base(bases, bases.len() as int);
    Seq::new(
        weights.len(),
        |i: int|
            if flt(fzero(), top) {
                fmul(weights[i], fdiv(bases[i], top))
            } else {
                fzero()
            },
    )
}

/// The weights tilted by the declared base weights and scaled to sum to their number again.
pub open spec fn tilted(weights: Seq<Double>, bases: Seq<Double>) -> Seq<Double> {
    let raw = tilted_raw(weights, bases);
    let total = fsum(raw, 0, raw.len() as int);
    if level_bases(bases) {
        weights
    } else if flt(fzero(), total) {
        Seq::new(raw.len(), |i: int| fdiv(fmul(fcount(raw.len() as int), raw[i]), total))
    } else {
        raw
    }
}

/// The base weights of a list of registered channels.
pub open spec fn bases_of(registry: Map<Seq<char>, ChannelConfig>, keys: Seq<Seq<char>>) -> Seq<
    Double,
> {
    Seq::new(keys.len(), |i: int| registry[keys[i]].base_weight)
}

/// The weights of one query.
pub open spec fn query_weights(
    reads: Map<Seq<char>, ChannelDiscrimination>,
    registry: Map<Seq<char>, ChannelConfig>,
    pairs: Map<(Seq<char>, Seq<char>), PairSummary>,
    cfg: FuseConfig,
) -> Map<Seq<char>, Double> {
    let keys = in_key_order(reads.dom());
    keyed(
        keys,
        tilted(coupled(gains(reads), baselines(pairs), keys, cfg.coupling), bases_of(registry, keys)),
        keys.len() as int,
    )
}

/// The outcome of fusing the inputs whose discriminations are `discs`.
pub open spec fn fuses_to<Id>(
    obs: Seq<ChannelInput<Id>>,
    registry: Map<Seq<char>, ChannelConfig>,
    channels: Map<Seq<char>, ChannelSummary>,
    pairs: Map<(Seq<char>, Seq<char>), PairSummary>,
    cfg: FuseConfig,
    discs: Seq<ChannelDiscrimination>,
    fused: Fused<Id>,
) -> bool {
    let n = obs.len() as int;
    let reads = reads_of(obs, registry, channels, discs, n);
    let tops = top_lists(obs, registry, channels, cfg.discrimination, discs, n);
    &&& fused.weights.wf()
    &&& fused.weights@ == query_weights(reads, registry, pairs, cfg)
    &&& fused.ranking@ == fused_ranking(
        entering(obs, registry, channels, n),
        fused.weights@,
        cfg.fusion.rrf_eta,
    )
    &&& fused.flags.wf()
    &&& fused.flags@ == flags_of(obs, registry, channels, discs, n)
    &&& fused.discrimination.wf()
    &&& fused.discrimination@ == reads
    &&& fused.confidence == diagnosed(tops).confidence
    &&& fused.conflict == diagnosed(tops).conflict
}

/// A list without duplicates in increasing order is determined by its members.
pub proof fn lemma_enumeration_unique(s: Seq<Seq<char>>, t: Seq<Seq<char>>, set: Set<Seq<char>>)
    requires
        enumerates(s, set),
        enumerates(t, set),
    ensures
        s == t,
{
    lemma_enumeration_below(s, t, set, if s.len() <= t.len() { s.len() } else { t.len() });
    if s.len() < t.len() {
        lemma_enumeration_shorter(s, t, set);
    } else if t.len() < s.len() {
        lemma_enumeration_shorter(t, s, set);
    }
    assert(s =~= t);
}

proof fn lemma_enumeration_shorter(s: Seq<Seq<char>>, t: Seq<Seq<char>>, set: Set<Seq<char>>)
    requires
        enumerates(s, set),
        enumerates(t, set),
        forall|i: int| #![trigger s[i]] 0 <= i < s.len() && i < t.len() ==> s[i] == t[i],
    ensures
        t.len() <= s.len(),
{
    if s.len() < t.len() {
        let k = t[s.len() as int];
        assert(t.contains(k));
        assert(set.contains(k));
        let p = choose|p: int| 0 <= p < s.len() && s[p] == k;
        assert(s[p] == t[p]);
        assert(text_before(t[p], t[s.len() as int]));
        crate::ordered::lemma_text_order(k, k, k);
    }
}

proof fn lemma_enumeration_below(
    s: Seq<Seq<char>>,
    t: Seq<Seq<char>>,
    set: Set<Seq<char>>,
    n: nat,
)
    requires
        enumerates(s, set),
        enumerates(t, set),
        n <= s.len(),
        n <= t.len(),
    ensures
        forall|i: int| #![trigger s[i]] #![trigger t[i]] 0 <= i < n ==> s[i] == t[i],
    decreases n,
{
    if n > 0 {
        lemma_enumeration_below(s, t, set, (n - 1) as nat);
        let m = n - 1;
        lemma_enumeration_not_earlier(s, t, set, m);
        lemma_enumeration_not_earlier(t, s, set, m);
        crate::ordered::lemma_text_order(s[m], t[m], s[m]);
    }
}

proof fn lemma_enumeration_not_earlier(
    s: Seq<Seq<char>>,
    t: Seq<Seq<char>>,
    set: Set<Seq<char>>,
    m: int,
)
    requires
        enumerates(s, set),
        enumerates(t, set),
        0 <= m < s.len(),
        m < t.len(),
        forall|i: int| #![trigger s[i]] 0 <= i < m ==> s[i] == t[i],
    ensures
        !text_before(s[m], t[m]),
{
    let k = s[m];
    if text_before(k, t[m]) {
        assert(s.contains(k));
        assert(set.contains(k));
        let p = choose|p: int| 0 <= p < t.len() && t[p] == k;
        crate::ordered::lemma_text_order(k, k, k);
        if p < m {
            assert(s[p] == k);
            assert(text_before(s[p], s[m]));
        } else if p > m {
            assert(text_before(t[m], t[p]));
            crate::ordered::lemma_text_order(k, t[m], k);
        }
    }
}

/// The channel's top ids: by descending score for a scored channel, ties in list order, and
/// by list order for a ranks-only one.
pub fn top_m_ids<Id: Clone>(items: &Items<Id>, m: usize) -> (top: Vec<Id>)
    requires
        forall|a: Id, b: Id| #[trigger] call_ensures(Id::clone, (&a,), b) ==> a == b,
    ensures
        top@ == top_ids(*items, m as int),
{
    let (positions, ranks) = rank_items(items);
    let n: usize = if m < positions.len() {
        m
    } else {
        positions.len()
    };
    let mut top: Vec<Id> = Vec::new();
    let mut t: usize = 0;
    while t < n
        invariant
            forall|a: Id, b: Id| #[trigger] call_ensures(Id::clone, (&a,), b) ==> a == b,
            positions@ == walk(*items),
            positions@.len() == items.size(),
            n <= positions@.len(),
            forall|h: int| 0 <= h < positions@.len() ==> (#[trigger] positions@[h]) < items.size(),
            t <= n,
            top@.len() == t,
            forall|h: int|
                0 <= h < t ==> #[trigger] top@[h] == items.id_at(positions@[h] as int),
        decreases n - t,
    {
        let p: usize = positions[t];
        let id = match items {
            Items::Scored(v) => v[p].0.clone(),
            Items::Ranks(v) => v[p].clone(),
        };
        top.push(id);
        t += 1;
    }
    assert(top@ =~= top_ids(*items, m as int));
    top
}

fn project_baselines(pairs: &OrderedMap<UnorderedPair<String>, PairSummary>) -> (out: OrderedMap<
    UnorderedPair<String>,
    PairBaseline,
>)
    requires
        pairs.wf(),
    ensures
        out.wf(),
        out@ == baselines(pairs@),
{
    let mut out: OrderedMap<UnorderedPair<String>, PairBaseline> = OrderedMap::new();
    let ghost s = pairs.sequence();
    let mut i: usize = 0;
    assert(map_of(s.take(0)) =~= Map::<(Seq<char>, Seq<char>), PairSummary>::empty());
    assert(out@ =~= baselines(map_of(s.take(0))));
    while i < pairs.len()
        invariant
            pairs.wf(),
            s == pairs.sequence(),
            i <= s.len(),
            out.wf(),
            out@ == baselines(map_of(s.take(i as int))),
        decreases s.len() - i,
    {
        proof {
            lemma_prefix_map(s, i as int);
        }
        let v = pairs.value_at(i);
        let ghost before = out@;
        out.insert(
            pairs.key_at(i).duplicate(),
            PairBaseline { redundancy: v.redundancy, refreshes: v.refreshes },
        );
        assert(out@ =~= baselines(map_of(s.take(i as int)).insert(s[i as int].0@, s[i as int].1)));
        i += 1;
    }
    assert(s.take(s.len() as int) =~= s);
    out
}

fn tilt(weights: &Vec<Double>, bases: &Vec<Double>) -> (w: Vec<Double>)
    requires
        weights@.len() == bases@.len(),
    ensures
        w@ == tilted(weights@, bases@),
{
    let n: usize = weights.len();
    let mut top = Double::zero();
    let mut i: usize = 0;
    while i < n
        invariant
            n == bases@.len(),
            i <= n,
            top == top_base(bases@, i as int),
        decreases n - i,
    {
        top = top.max(bases[i]);
        i += 1;
    }
    let positive: bool = Double::zero().lt(top);
    let mut level: bool = positive;
    i = 0;
    while i < n
        invariant
            n == bases@.len(),
            i <= n,
            level <==> positive && forall|h: int| 0 <= h < i ==> feq(#[trigger] bases@[h], top),
        decreases n - i,
    {
        if bases[i] != top {
            level = false;
            assert(!feq(bases@[i as int], top));
        }
        i += 1;
    }
    if level {
        let mut w: Vec<Double> = Vec::new();
        i = 0;
        while i < n
            invariant
                n == weights@.len(),
                i <= n,
                w@.len() == i,
                forall|h: int| 0 <= h < i ==> #[trigger] w@[h] == weights@[h],
            decreases n - i,
        {
            w.push(weights[i]);
            i += 1;
        }
        assert(w@ =~= weights@);
        return w;
    }
    let mut raw: Vec<Double> = Vec::new();
    i = 0;
    while i < n
        invariant
            n == weights@.len(),
            n == bases@.len(),
            top == top_base(bases@, n as int),
            positive == flt(fzero(), top),
            i <= n,
            raw@.len() == i,
            forall|h: int| 0 <= h < i ==> #[trigger] raw@[h] == tilted_raw(weights@, bases@)[h],
        decreases n - i,
    {
        let v = if positive {
            weights[i] * (bases[i] / top)
        } else {
            Double::zero()
        };
        raw.push(v);
        i += 1;
    }
    assert(raw@ =~= tilted_raw(weights@, bases@));
    let total = sum_between(raw.as_slice(), 0, n);
    if !Double::zero().lt(total) {
        return raw;
    }
    let nf = Double::of_count(n);
    let mut w: Vec<Double> = Vec::new();
    i = 0;
    while i < n
        invariant
            n == raw@.len(),
            nf == fcount(n as int),
            i <= n,
            w@.len() == i,
            forall|h: int| 0 <= h < i ==> #[trigger] w@[h] == fdiv(fmul(nf, raw@[h]), total),
        decreases n - i,
    {
        w.push(nf * raw[i] / total);
        i += 1;
    }
    assert(w@ =~= tilted(weights@, bases@));
    w
}

/// The weights of one query: discounted for redundancy, then tilted by the declared base
/// weights.
fn weigh(
    reads: &OrderedMap<String, ChannelDiscrimination>,
    configs: &OrderedMap<String, ChannelConfig>,
    pairs: &OrderedMap<UnorderedPair<String>, PairSummary>,
    cfg: &FuseConfig,
) -> (weights: OrderedMap<String, Double>)
    requires
        reads.wf(),
        configs.wf(),
        pairs.wf(),
        forall|k: Seq<char>| #[trigger] reads@.contains_key(k) ==> configs@.contains_key(k),
    ensures
        weights.wf(),
        weights@ == query_weights(reads@, configs@, pairs@, *cfg),
{
    let n: usize = reads.len();
    let ghost s = reads.sequence();
    let mut g: OrderedMap<String, Double> = OrderedMap::new();
    let mut keys: Vec<String> = Vec::new();
    let mut bases: Vec<Double> = Vec::new();
    let mut i: usize = 0;
    assert(map_of(s.take(0)) =~= Map::<Seq<char>, ChannelDiscrimination>::empty());
    assert(g@ =~= gains(map_of(s.take(0))));
    while i < n
        invariant
            reads.wf(),
            configs.wf(),
            s == reads.sequence(),
            n == s.len(),
            forall|k: Seq<char>| #[trigger] reads@.contains_key(k) ==> configs@.contains_key(k),
            i <= n,
            g.wf(),
            g@ == gains(map_of(s.take(i as int))),
            keys@.len() == i,
            forall|h: int| 0 <= h < i ==> (#[trigger] keys@[h])@ == s[h].0@,
            bases@.len() == i,
            forall|h: int|
                0 <= h < i ==> #[trigger] bases@[h] == configs@[s[h].0@].base_weight,
        decreases n - i,
    {
        proof {
            lemma_prefix_map(s, i as int);
            lemma_entry(s, i as int);
            assert(reads@.contains_key(s[i as int].0@));
        }
        let key = reads.key_at(i);
        g.insert(key.clone(), reads.value_at(i).g);
        assert(g@ =~= gains(map_of(s.take(i as int)).insert(s[i as int].0@, s[i as int].1)));
        keys.push(key.clone());
        match configs.get(key) {
            Some(c) => {
                bases.push(c.base_weight);
            },
            None => {
                assert(false);
            },
        }
        i += 1;
    }
    proof {
        assert(s.take(s.len() as int) =~= s);
        let list = names(keys@);
        assert(enumerates(list, reads@.dom())) by {
            assert forall|a: int, b: int|
                #![trigger list[a], list[b]]
                0 <= a < b < list.len() implies text_before(list[a], list[b]) by {
                assert(keys@[a]@ == s[a].0@ && keys@[b]@ == s[b].0@);
                assert(<String as MapKey>::before(s[a].0@, s[b].0@));
            }
            assert forall|k: Seq<char>| #[trigger] reads@.dom().contains(k) <==> list.contains(k) by {
                if reads@.dom().contains(k) {
                    assert(holds_key(s, k));
                    let p = crate::ordered::position(s, k);
                    assert(s[p].0@ == k);
                    assert(keys@[p]@ == k);
                    assert(list[p] == k);
                }
                if list.contains(k) {
                    let p = choose|p: int| 0 <= p < list.len() && list[p] == k;
                    assert(keys@[p]@ == s[p].0@);
                    lemma_entry(s, p);
                }
            }
        }
        lemma_enumeration_unique(list, in_key_order(reads@.dom()), reads@.dom());
        assert(bases@ =~= bases_of(configs@, list));
    }
    let redundancy = project_baselines(pairs);
    let coupled = coupled_weights(&g, &redundancy, keys.as_slice(), &cfg.coupling);
    let ghost list = names(keys@);
    let ghost values = crate::weighting::coupling::coupled(g@, redundancy@, list, cfg.coupling);
    let mut current: Vec<Double> = Vec::new();
    i = 0;
    proof {
        lemma_keyed(list, values, list.len() as int, reads@.dom());
    }
    while i < n
        invariant
            n == keys@.len(),
            list == names(keys@),
            coupled.weights.wf(),
            values.len() == n,
            forall|h: int|
                0 <= h < n ==> coupled.weights@.contains_key(#[trigger] list[h])
                    && coupled.weights@[list[h]] == values[h],
            i <= n,
            current@.len() == i,
            forall|h: int| 0 <= h < i ==> #[trigger] current@[h] == values[h],
        decreases n - i,
    {
        assert(list[i as int] == keys@[i as int]@);
        match coupled.weights.get(&keys[i]) {
            Some(w) => {
                current.push(*w);
            },
            None => {
                assert(false);
            },
        }
        i += 1;
    }
    assert(current@ =~= values);
    let tilted_weights = tilt(&current, &bases);
    keyed_by(keys.as_slice(), &tilted_weights)
}

/// With distinct keys, each value stands under its own key.
proof fn lemma_keyed(keys: Seq<Seq<char>>, values: Seq<Double>, n: int, set: Set<Seq<char>>)
    requires
        enumerates(keys, set),
        0 <= n <= keys.len(),
    ensures
        forall|h: int|
            0 <= h < n ==> keyed(keys, values, n).contains_key(#[trigger] keys[h]) && keyed(
                keys,
                values,
                n,
            )[keys[h]] == values[h],
    decreases n,
{
    if n > 0 {
        lemma_keyed(keys, values, n - 1, set);
        assert forall|h: int| 0 <= h < n implies keyed(keys, values, n).contains_key(
            #[trigger] keys[h],
        ) && keyed(keys, values, n)[keys[h]] == values[h] by {
            if h < n - 1 {
                assert(text_before(keys[h], keys[n - 1]));
                crate::ordered::lemma_text_order(keys[h], keys[h], keys[h]);
            }
        }
    }
}

/// The heart of fusion: weight, fuse, flag, and diagnose, given each input's
/// discrimination.
pub fn fuse_core<Id: Hash + Eq + Clone>(
    obs: &[ChannelInput<Id>],
    configs: &OrderedMap<String, ChannelConfig>,
    channels: &OrderedMap<String, ChannelSummary>,
    pairs: &OrderedMap<UnorderedPair<String>, PairSummary>,
    cfg: &FuseConfig,
    discs: &Vec<ChannelDiscrimination>,
) -> (fused: Fused<Id>)
    requires
        identifies::<Id>(),
        configs.wf(),
        channels.wf(),
        pairs.wf(),
        discs@.len() == obs@.len(),
    ensures
        fuses_to(obs@, configs@, channels@, pairs@, *cfg, discs@, fused),
{
    let mut reads: OrderedMap<String, ChannelDiscrimination> = OrderedMap::new();
    let mut flags: OrderedMap<String, ChannelFlag> = OrderedMap::new();
    let mut entered: Vec<&ChannelInput<Id>> = Vec::new();
    let mut top_sets: Vec<(String, Vec<Id>)> = Vec::new();
    let mut i: usize = 0;
    assert(inputs(entered@) =~= entering(obs@, configs@, channels@, 0));
    assert(id_lists(top_sets@) =~= top_lists(
        obs@,
        configs@,
        channels@,
        cfg.discrimination,
        discs@,
        0,
    ));
    while i < obs.len()
        invariant
            identifies::<Id>(),
            configs.wf(),
            channels.wf(),
            discs@.len() == obs@.len(),
            i <= obs@.len(),
            reads.wf(),
            reads@ == reads_of(obs@, configs@, channels@, discs@, i as int),
            forall|k: Seq<char>| #[trigger]
                reads@.contains_key(k) <==> configs@.contains_key(k) && channels@.contains_key(k)
                    && exists|j: int| 0 <= j < i && (#[trigger] obs@[j]).key@ == k,
            flags.wf(),
            flags@ == flags_of(obs@, configs@, channels@, discs@, i as int),
            inputs(entered@) == entering(obs@, configs@, channels@, i as int),
            id_lists(top_sets@) == top_lists(
                obs@,
                configs@,
                channels@,
                cfg.discrimination,
                discs@,
                i as int,
            ),
        decreases obs@.len() - i,
    {
        let o = &obs[i];
        let registered: bool = configs.contains_key(&o.key);
        let repeated: bool = reads.contains_key(&o.key);
        let ghost before = reads@;
        let ghost was_entered = entered@;
        let ghost was_tops = top_sets@;
        let ghost enters_now = enters(obs@, configs@, channels@, i as int);
        match channels.get(&o.key) {
            Some(summary) => {
                proof {
                    if registered && repeated {
                        let j = choose|j: int| 0 <= j < i && (#[trigger] obs@[j]).key@ == o.key@;
                        assert(obs@[j].key@ == obs@[i as int].key@);
                    }
                    assert(enters_now == (registered && !repeated));
                }
                if registered && !repeated {
                    let disc = discs[i];
                    if o.items.is_ranks_only() {
                        flags.insert(o.key.clone(), ChannelFlag::RanksOnlyDefaultWeighted);
                    } else if disc.degenerate_separation {
                        flags.insert(o.key.clone(), ChannelFlag::DegenerateSeparation);
                    } else if disc.reference_cold {
                        flags.insert(o.key.clone(), ChannelFlag::NoReference);
                    }
                    if disc.raw_separation.is_some() && Double::one().le(disc.g)
                        && cfg.discrimination.min_count_for_z.le(summary.separation.count()) {
                        top_sets.push(
                            (o.key.clone(), top_m_ids(&o.items, cfg.discrimination.top_m)),
                        );
                        assert(id_lists(top_sets@) =~= id_lists(was_tops).push(
                            top_ids(o.items, cfg.discrimination.top_m as int),
                        ));
                    }
                    reads.insert(o.key.clone(), disc);
                    entered.push(o);
                    assert(inputs(entered@) =~= inputs(was_entered).push(*o));
                }
            },
            None => {},
        }
        proof {
            assert forall|k: Seq<char>| #[trigger] reads@.contains_key(k) <==> configs@.contains_key(
                k,
            ) && channels@.contains_key(k) && exists|j: int|
                0 <= j < i + 1 && (#[trigger] obs@[j]).key@ == k by {
                if k == o.key@ {
                    assert(obs@[i as int].key@ == k);
                }
                if before.contains_key(k) {
                    let j = choose|j: int| 0 <= j < i && (#[trigger] obs@[j]).key@ == k;
                    assert(obs@[j].key@ == k);
                }
                if exists|j: int| 0 <= j < i + 1 && (#[trigger] obs@[j]).key@ == k {
                    let j = choose|j: int| 0 <= j < i + 1 && (#[trigger] obs@[j]).key@ == k;
                    if j < i {
                        assert(obs@[j].key@ == k);
                    }
                }
            }
        }
        i += 1;
    }
    let weights = weigh(&reads, configs, pairs, cfg);
    let ranking = fuse_inputs(entered.as_slice(), &weights, &cfg.fusion);
    let d = diagnostics(top_sets.as_slice());
    Fused {
        ranking,
        weights,
        flags,
        discrimination: reads,
        confidence: d.confidence,
        conflict: d.conflict,
    }
}

/// The channel baselines after the first `n` inputs have been seen: a registered channel
/// without one is seeded from its registration.
pub open spec fn seeded_channels<Id>(
    obs: Seq<ChannelInput<Id>>,
    registry: Map<Seq<char>, ChannelConfig>,
    channels: Map<Seq<char>, ChannelSummary>,
    n: int,
) -> Map<Seq<char>, ChannelSummary>
    decreases n,
{
    if n <= 0 {
        channels
    } else {
        let before = seeded_channels(obs, registry, channels, n - 1);
        let key = obs[n - 1].key@;
        if registry.contains_key(key) && !before.contains_key(key) {
            before.insert(key, seed(registry[key]))
        } else {
            before
        }
    }
}

/// The orientations on record after the first `n` inputs have been seen.
pub open spec fn seeded_directions<Id>(
    obs: Seq<ChannelInput<Id>>,
    registry: Map<Seq<char>, ChannelConfig>,
    directions: Map<Seq<char>, Direction>,
    n: int,
) -> Map<Seq<char>, Direction>
    decreases n,
{
    if n <= 0 {
        directions
    } else {
        let before = seeded_directions(obs, registry, directions, n - 1);
        let key = obs[n - 1].key@;
        if registry.contains_key(key) && !before.contains_key(key) {
            before.insert(key, registry[key].direction)
        } else {
            before
        }
    }
}

/// The baselines of one query that leaves no trace: those of a prior state, and seeds for
/// registered channels that it lacks.
pub open spec fn borrowed_channels<Id>(
    obs: Seq<ChannelInput<Id>>,
    registry: Map<Seq<char>, ChannelConfig>,
    prior_channels: Map<Seq<char>, ChannelSummary>,
    n: int,
) -> Map<Seq<char>, ChannelSummary>
    decreases n,
{
    if n <= 0 {
        Map::empty()
    } else {
        let before = borrowed_channels(obs, registry, prior_channels, n - 1);
        let key = obs[n - 1].key@;
        if registry.contains_key(key) && !before.contains_key(key) {
            before.insert(
                key,
                if prior_channels.contains_key(key) {
                    prior_channels[key]
                } else {
                    seed(registry[key])
                },
            )
        } else {
            before
        }
    }
}

/// The baselines of one query against registrations and a prior state.
pub open spec fn stateless_baselines<Id>(
    obs: Seq<ChannelInput<Id>>,
    configs: Seq<ChannelConfig>,
    prior: RuffleState,
) -> Map<Seq<char>, ChannelSummary> {
    borrowed_channels(
        obs,
        registered(configs, configs.len() as int),
        prior.channel_table()@,
        obs.len() as int,
    )
}

/// What fusing a query without a trace returns, given the exponentials of its squash
/// arguments.
pub open spec fn fuses_statelessly<Id>(
    obs: Seq<ChannelInput<Id>>,
    configs: Seq<ChannelConfig>,
    prior: RuffleState,
    cfg: FuseConfig,
    exps: Seq<(Double, Double)>,
    fused: Fused<Id>,
) -> bool {
    let registry = registered(configs, configs.len() as int);
    let channels = stateless_baselines(obs, configs, prior);
    fuses_to(
        obs,
        registry,
        channels,
        prior.pair_table()@,
        cfg,
        judgments(obs, registry, channels, cfg, exps),
        fused,
    )
}

/// What the input at `i` says, where it is registered, has a baseline, and has scores.
pub open spec fn reading_at<Id>(
    obs: Seq<ChannelInput<Id>>,
    registry: Map<Seq<char>, ChannelConfig>,
    channels: Map<Seq<char>, ChannelSummary>,
    cfg: FuseConfig,
    i: int,
) -> Option<PoolReading> {
    let key = obs[i].key@;
    if registry.contains_key(key) && channels.contains_key(key) && readable(obs[i].items) {
        Some(
            items_reading(
                obs[i].items,
                channels[key].separation,
                channels[key].reference,
                cfg.discrimination,
            ),
        )
    } else {
        None
    }
}

/// The discrimination of a reading, neutral where there is none, given the exponentials of
/// its two squash arguments.
pub open spec fn judged(
    r: Option<PoolReading>,
    cfg: FuseConfig,
    exps: (Double, Double),
) -> ChannelDiscrimination {
    match r {
        Some(r) => discrimination(r, cfg.discrimination, exps.0, exps.1),
        None => neutral_read(),
    }
}

/// The discriminations of all inputs, given the exponentials.
pub open spec fn judgments<Id>(
    obs: Seq<ChannelInput<Id>>,
    registry: Map<Seq<char>, ChannelConfig>,
    channels: Map<Seq<char>, ChannelSummary>,
    cfg: FuseConfig,
    exps: Seq<(Double, Double)>,
) -> Seq<ChannelDiscrimination> {
    Seq::new(
        obs.len(),
        |i: int| judged(reading_at(obs, registry, channels, cfg, i), cfg, exps[i]),
    )
}

/// `pair` holds what `exp` returns for the squash arguments of a reading.
pub open spec fn exponentiated<E: Fn(Double) -> Double>(
    r: Option<PoolReading>,
    cfg: FuseConfig,
    exp: E,
    pair: (Double, Double),
) -> bool {
    r is Some ==> {
        &&& call_ensures(
            exp,
            (squash_argument(r->0.separation_z, cfg.discrimination.g_slope),),
            pair.0,
        )
        &&& r->0.goodness_z is Some ==> call_ensures(
            exp,
            (squash_argument(r->0.goodness_z->0, cfg.discrimination.g_slope),),
            pair.1,
        )
    }
}

/// `exps` holds what `exp` returns for the squash arguments of all inputs.
pub open spec fn exponentials<Id, E: Fn(Double) -> Double>(
    obs: Seq<ChannelInput<Id>>,
    registry: Map<Seq<char>, ChannelConfig>,
    channels: Map<Seq<char>, ChannelSummary>,
    cfg: FuseConfig,
    exp: E,
    exps: Seq<(Double, Double)>,
) -> bool {
    &&& exps.len() == obs.len()
    &&& forall|i: int|
        0 <= i < obs.len() ==> exponentiated(
            reading_at(obs, registry, channels, cfg, i),
            cfg,
            exp,
            #[trigger] exps[i],
        )
}

/// A channel's summary after a query's read has been folded in: decayed where decay is on,
/// then the winsorized separation and the top average pushed.
pub open spec fn folded(
    s: ChannelSummary,
    d: ChannelDiscrimination,
    cfg: FuseConfig,
) -> ChannelSummary {
    let aged = if cfg.decay.enabled {
        decayed_channel(s, cfg.decay.factor)
    } else {
        s
    };
    ChannelSummary {
        separation: if d.raw_separation is Some {
            pushed(
                aged.separation,
                winsorized(d.raw_separation->0, aged.separation, cfg.discrimination),
            )
        } else {
            aged.separation
        },
        reference: if d.top_m_average is Some {
            pushed(aged.reference, d.top_m_average->0)
        } else {
            aged.reference
        },
        tag: s.tag,
    }
}

/// The channel baselines after a query's reads have been folded in.
pub open spec fn folded_channels(
    channels: Map<Seq<char>, ChannelSummary>,
    reads: Map<Seq<char>, ChannelDiscrimination>,
    cfg: FuseConfig,
) -> Map<Seq<char>, ChannelSummary> {
    Map::new(
        |k: Seq<char>| channels.contains_key(k),
        |k: Seq<char>|
            if reads.contains_key(k) {
                folded(channels[k], reads[k], cfg)
            } else {
                channels[k]
            },
    )
}

/// A pair's summary after a fresh observation has been merged in.
pub open spec fn refreshed(s: PairSummary, o: PairObservation, cfg: FuseConfig) -> PairSummary {
    let aged = if cfg.decay.enabled {
        decayed_pair(s, cfg.decay.factor)
    } else {
        s
    };
    PairSummary {
        redundancy: pooled(
            aged.redundancy,
            prior(o.correlation, fzero(), fcount(o.n_both as int)),
        ),
        refreshes: fadd(aged.refreshes, fone()),
    }
}

/// A pair summary of nothing.
pub open spec fn empty_pair() -> PairSummary {
    PairSummary { redundancy: empty_summary(), refreshes: fzero() }
}

/// The pair baselines after fresh observations have been merged in.
pub open spec fn refreshed_pairs(
    pairs: Map<(Seq<char>, Seq<char>), PairSummary>,
    observations: Map<(Seq<char>, Seq<char>), PairObservation>,
    cfg: FuseConfig,
) -> Map<(Seq<char>, Seq<char>), PairSummary> {
    Map::new(
        |k: (Seq<char>, Seq<char>)| pairs.contains_key(k) || observations.contains_key(k),
        |k: (Seq<char>, Seq<char>)|
            if observations.contains_key(k) {
                refreshed(
                    if pairs.contains_key(k) {
                        pairs[k]
                    } else {
                        empty_pair()
                    },
                    observations[k],
                    cfg,
                )
            } else {
                pairs[k]
            },
    )
}

impl Fuser {
    /// The registrations by key.
    pub closed spec fn registry(&self) -> OrderedMap<String, ChannelConfig> {
        self.configs
    }

    /// The persistent state.
    pub closed spec fn held(&self) -> RuffleState {
        self.state
    }

    /// The fusion configuration.
    pub closed spec fn settings(&self) -> FuseConfig {
        self.cfg
    }

    /// All maps are kept in key order.
    pub open spec fn wf(&self) -> bool {
        self.registry().wf() && self.held().wf()
    }

    /// The channel baselines that a query is read against.
    pub open spec fn baselines_for<Id>(&self, obs: Seq<ChannelInput<Id>>) -> Map<
        Seq<char>,
        ChannelSummary,
    > {
        seeded_channels(
            obs,
            self.registry()@,
            self.held().channel_table()@,
            obs.len() as int,
        )
    }

    /// What fusing a query does and returns, given the exponentials of its squash arguments.
    pub open spec fn fuses<Id>(
        &self,
        obs: Seq<ChannelInput<Id>>,
        exps: Seq<(Double, Double)>,
        after: Fuser,
        fused: Fused<Id>,
    ) -> bool {
        let registry = self.registry()@;
        let channels = self.baselines_for(obs);
        let n = obs.len() as int;
        let discs = judgments(obs, registry, channels, self.settings(), exps);
        let reads = reads_of(obs, registry, channels, discs, n);
        &&& fuses_to(
            obs,
            registry,
            channels,
            self.held().pair_table()@,
            self.settings(),
            discs,
            fused,
        )
        &&& after.wf()
        &&& after.registry() == self.registry()
        &&& after.settings() == self.settings()
        &&& after.held().version() == self.held().version()
        &&& after.held().stats().stat_version == self.held().stats().stat_version
        &&& after.held().stats().baseline_mode == self.held().stats().baseline_mode
        &&& after.held().stats().directions@ == seeded_directions(
            obs,
            registry,
            self.held().stats().directions@,
            n,
        )
        &&& after.held().channel_table()@ == folded_channels(channels, reads, self.settings())
        &&& after.held().pair_table() == self.held().pair_table()
    }

    /// Builds a fresh fuser from channel registrations and a configuration, with empty
    /// starting baselines.
    pub fn new(configs: &[ChannelConfig], cfg: FuseConfig) -> (r: Result<Fuser, ConfigError>)
        ensures
            r is Ok <==> registrable(configs@, cfg),
            r is Err ==> registration_refusal(configs@, cfg, r->Err_0),
            r is Ok ==> {
                let f = r->Ok_0;
                &&& f.wf()
                &&& f.registry()@ == registered(configs@, configs@.len() as int)
                &&& f.settings() == cfg
                &&& f.held().version() == FORMAT_VERSION
                &&& f.held().stats().stat_version == STAT_VERSION
                &&& f.held().stats().baseline_mode == cfg.baseline_mode
                &&& f.held().stats().directions@ == orientations(configs@, configs@.len() as int)
                &&& f.held().channel_table()@ == Map::<Seq<char>, ChannelSummary>::empty()
                &&& f.held().pair_table()@ == Map::<(Seq<char>, Seq<char>), PairSummary>::empty()
                &&& pairs_canonical(f.held().pair_table()@)
            },
    {
        match validate_registrations(configs, &cfg) {
            Ok(_) => {},
            Err(e) => {
                return Err(e);
            },
        }
        let mut directions: OrderedMap<String, Direction> = OrderedMap::new();
        let mut i: usize = 0;
        while i < configs.len()
            invariant
                i <= configs@.len(),
                directions.wf(),
                directions@ == orientations(configs@, i as int),
            decreases configs@.len() - i,
        {
            directions.insert(configs[i].id.key.clone(), configs[i].direction);
            i += 1;
        }
        let state = RuffleState::new(StatFingerprint::new(cfg.baseline_mode, directions));
        Ok(Fuser { configs: config_lookup(configs), state, cfg })
    }

    /// Builds a fuser from channel registrations, a previously persisted state, and a
    /// configuration, continuing to accumulate from that state.
    pub fn resume(configs: &[ChannelConfig], state: RuffleState, cfg: FuseConfig) -> (r: Result<
        Fuser,
        ResumeError,
    >)
        requires
            state.wf(),
        ensures
            r is Ok <==> registrable(configs@, cfg) && compatible(configs@, state, cfg),
            !registrable(configs@, cfg) ==> r->Err_0 is Config && registration_refusal(
                configs@,
                cfg,
                r->Err_0->Config_0,
            ),
            registrable(configs@, cfg) && !compatible(configs@, state, cfg) ==> r->Err_0 is State
                && state_refusal(configs@, state, cfg, r->Err_0->State_0),
            r is Ok ==> r->Ok_0.wf() && r->Ok_0.registry()@ == registered(
                configs@,
                configs@.len() as int,
            ) && r->Ok_0.held() == state && r->Ok_0.settings() == cfg,
    {
        match validate_registrations(configs, &cfg) {
            Ok(_) => {},
            Err(e) => {
                return Err(ResumeError::Config(e));
            },
        }
        match validate_against_state(configs, &state, &cfg) {
            Ok(_) => {},
            Err(e) => {
                return Err(ResumeError::State(e));
            },
        }
        Ok(Fuser { configs: config_lookup(configs), state, cfg })
    }

    /// The persistent baseline state, for serialization and inspection.
    #[must_use]
    pub fn state(&self) -> (state: &RuffleState)
        ensures
            *state == self.held(),
    {
        &self.state
    }

    /// The fusion configuration in force.
    #[must_use]
    pub fn config(&self) -> (cfg: &FuseConfig)
        ensures
            *cfg == self.settings(),
    {
        &self.cfg
    }

    /// Fuses one query's per-channel results into a single ranking, and folds this query's
    /// readings into the running baselines. `exp` is the exponential function.
    ///
    /// An input whose key is not a registered channel is skipped entirely. If one key
    /// appears more than once, only the first input is fused.
    pub fn fuse<Id: Hash + Eq + Clone, E: Fn(Double) -> Double>(
        &mut self,
        obs: &[ChannelInput<Id>],
        exp: &E,
    ) -> (fused: Fused<Id>)
        requires
            old(self).wf(),
            identifies::<Id>(),
            forall|x: Double| call_requires(*exp, (x,)),
        ensures
            exists|exps: Seq<(Double, Double)>| #[trigger]
                exponentials(
                    obs@,
                    old(self).registry()@,
                    old(self).baselines_for(obs@),
                    old(self).settings(),
                    *exp,
                    exps,
                ) && old(self).fuses(obs@, exps, *final(self), fused),
    {
        self.seed_baselines(obs);
        let readings = read_inputs(obs, &self.configs, self.state.channel_map(), &self.cfg);
        let exps = exponentiate(readings.as_slice(), &self.cfg, exp);
        assert(exponentials(
            obs@,
            old(self).registry()@,
            old(self).baselines_for(obs@),
            old(self).settings(),
            *exp,
            exps@,
        ));
        self.finish(obs, &readings, exps.as_slice())
    }

    /// Fuses one query as [`fuse`](Self::fuse) does, given the exponentials of each input's
    /// two squash arguments.
    pub fn fuse_with<Id: Hash + Eq + Clone>(
        &mut self,
        obs: &[ChannelInput<Id>],
        exps: &[(Double, Double)],
    ) -> (fused: Fused<Id>)
        requires
            old(self).wf(),
            identifies::<Id>(),
            exps@.len() == obs@.len(),
        ensures
            old(self).fuses(obs@, exps@, *final(self), fused),
    {
        self.seed_baselines(obs);
        let readings = read_inputs(obs, &self.configs, self.state.channel_map(), &self.cfg);
        self.finish(obs, &readings, exps)
    }

    /// Seeds a summary and records the orientation for every registered channel present.
    fn seed_baselines<Id>(&mut self, obs: &[ChannelInput<Id>])
        requires
            old(self).wf(),
        ensures
            final(self).wf(),
            final(self).registry() == old(self).registry(),
            final(self).settings() == old(self).settings(),
            final(self).held().version() == old(self).held().version(),
            final(self).held().stats().stat_version == old(self).held().stats().stat_version,
            final(self).held().stats().baseline_mode == old(self).held().stats().baseline_mode,
            final(self).held().stats().directions@ == seeded_directions(
                obs@,
                old(self).registry()@,
                old(self).held().stats().directions@,
                obs@.len() as int,
            ),
            final(self).held().channel_table()@ == old(self).baselines_for(obs@),
            final(self).held().pair_table() == old(self).held().pair_table(),
    {
        let mut i: usize = 0;
        while i < obs.len()
            invariant
                self.wf(),
                i <= obs@.len(),
                self.registry() == old(self).registry(),
                self.settings() == old(self).settings(),
                self.held().version() == old(self).held().version(),
                self.held().stats().stat_version == old(self).held().stats().stat_version,
                self.held().stats().baseline_mode == old(self).held().stats().baseline_mode,
                self.held().stats().directions@ == seeded_directions(
                    obs@,
                    old(self).registry()@,
                    old(self).held().stats().directions@,
                    i as int,
                ),
                self.held().channel_table()@ == seeded_channels(
                    obs@,
                    old(self).registry()@,
                    old(self).held().channel_table()@,
                    i as int,
                ),
                self.held().pair_table() == old(self).held().pair_table(),
            decreases obs@.len() - i,
        {
            let key = &obs[i].key;
            match self.configs.get(key) {
                Some(c) => {
                    self.state.note_direction(key, c.direction);
                    if !self.state.channel_map().contains_key(key) {
                        self.state.put_channel(key.clone(), seed_summary(c));
                    }
                },
                None => {},
            }
            i += 1;
        }
    }

    /// Judges the readings, fuses, and folds the reads into the baselines.
    fn finish<Id: Hash + Eq + Clone>(
        &mut self,
        obs: &[ChannelInput<Id>],
        readings: &Vec<Option<PoolReading>>,
        exps: &[(Double, Double)],
    ) -> (fused: Fused<Id>)
        requires
            old(self).wf(),
            identifies::<Id>(),
            exps@.len() == obs@.len(),
            readings@.len() == obs@.len(),
            forall|i: int|
                0 <= i < obs@.len() ==> #[trigger] readings@[i] == reading_at(
                    obs@,
                    old(self).registry()@,
                    old(self).held().channel_table()@,
                    old(self).settings(),
                    i,
                ),
        ensures
            ({
                let discs = judgments(
                    obs@,
                    old(self).registry()@,
                    old(self).held().channel_table()@,
                    old(self).settings(),
                    exps@,
                );
                let reads = reads_of(
                    obs@,
                    old(self).registry()@,
                    old(self).held().channel_table()@,
                    discs,
                    obs@.len() as int,
                );
                &&& fuses_to(
                    obs@,
                    old(self).registry()@,
                    old(self).held().channel_table()@,
                    old(self).held().pair_table()@,
                    old(self).settings(),
                    discs,
                    fused,
                )
                &&& final(self).held().channel_table()@ == folded_channels(
                    old(self).held().channel_table()@,
                    reads,
                    old(self).settings(),
                )
            }),
            final(self).wf(),
            final(self).registry() == old(self).registry(),
            final(self).settings() == old(self).settings(),
            final(self).held().version() == old(self).held().version(),
            final(self).held().stats() == old(self).held().stats(),
            final(self).held().pair_table() == old(self).held().pair_table(),
    {
        let discs = judge(readings, &self.cfg, exps);
        assert(discs@ =~= judgments(
            obs@,
            old(self).registry()@,
            old(self).held().channel_table()@,
            old(self).settings(),
            exps@,
        ));
        let fused = fuse_core(
            obs,
            &self.configs,
            self.state.channel_map(),
            self.state.pair_map(),
            &self.cfg,
            &discs,
        );
        self.fold_reads(&fused.discrimination);
        fused
    }

    /// Folds a query's reads into the persistent baselines.
    fn fold_reads(&mut self, reads: &OrderedMap<String, ChannelDiscrimination>)
        requires
            old(self).wf(),
            reads.wf(),
        ensures
            final(self).wf(),
            final(self).registry() == old(self).registry(),
            final(self).settings() == old(self).settings(),
            final(self).held().version() == old(self).held().version(),
            final(self).held().stats() == old(self).held().stats(),
            final(self).held().pair_table() == old(self).held().pair_table(),
            final(self).held().channel_table()@ == folded_channels(
                old(self).held().channel_table()@,
                reads@,
                old(self).settings(),
            ),
    {
        let ghost s = reads.sequence();
        let ghost start = self.held().channel_table()@;
        let mut i: usize = 0;
        proof {
            assert(map_of(s.take(0)) =~= Map::<Seq<char>, ChannelDiscrimination>::empty());
            assert(start =~= folded_channels(start, map_of(s.take(0)), self.settings()));
        }
        while i < reads.len()
            invariant
                reads.wf(),
                s == reads.sequence(),
                i <= s.len(),
                self.wf(),
                self.registry() == old(self).registry(),
                self.settings() == old(self).settings(),
                self.held().version() == old(self).held().version(),
                self.held().stats() == old(self).held().stats(),
                self.held().pair_table() == old(self).held().pair_table(),
                self.held().channel_table()@ == folded_channels(
                    start,
                    map_of(s.take(i as int)),
                    old(self).settings(),
                ),
            decreases s.len() - i,
        {
            proof {
                lemma_prefix_map(s, i as int);
            }
            let ghost m = map_of(s.take(i as int));
            let ghost k = s[i as int].0@;
            let key = reads.key_at(i);
            let disc = reads.value_at(i);
            match self.state.channel_map().get(key) {
                Some(summary) => {
                    let next = fold_read(summary, disc, &self.cfg);
                    self.state.put_channel(key.clone(), next);
                },
                None => {},
            }
            proof {
                assert(self.held().channel_table()@ =~= folded_channels(
                    start,
                    m.insert(k, s[i as int].1),
                    old(self).settings(),
                ));
            }
            i += 1;
        }
        assert(s.take(s.len() as int) =~= s);
    }

    /// Fuses one query against the given registrations and a prior state, without touching
    /// any baseline. `exp` is the exponential function.
    pub fn fuse_stateless<Id: Hash + Eq + Clone, E: Fn(Double) -> Double>(
        obs: &[ChannelInput<Id>],
        configs: &[ChannelConfig],
        prior: &RuffleState,
        cfg: &FuseConfig,
        exp: &E,
    ) -> (r: Result<Fused<Id>, ResumeError>)
        requires
            prior.wf(),
            identifies::<Id>(),
            forall|x: Double| call_requires(*exp, (x,)),
        ensures
            r is Ok <==> registrable(configs@, *cfg) && compatible(configs@, *prior, *cfg),
            !registrable(configs@, *cfg) ==> r->Err_0 is Config && registration_refusal(
                configs@,
                *cfg,
                r->Err_0->Config_0,
            ),
            registrable(configs@, *cfg) && !compatible(configs@, *prior, *cfg) ==> r->Err_0
                is State && state_refusal(configs@, *prior, *cfg, r->Err_0->State_0),
            r is Ok ==> exists|exps: Seq<(Double, Double)>| #[trigger]
                exponentials(
                    obs@,
                    registered(configs@, configs@.len() as int),
                    stateless_baselines(obs@, configs@, *prior),
                    *cfg,
                    *exp,
                    exps,
                ) && fuses_statelessly(obs@, configs@, *prior, *cfg, exps, r->Ok_0),
    {
        match validate_registrations(configs, cfg) {
            Ok(_) => {},
            Err(e) => {
                return Err(ResumeError::Config(e));
            },
        }
        match validate_against_state(configs, prior, cfg) {
            Ok(_) => {},
            Err(e) => {
                return Err(ResumeError::State(e));
            },
        }
        let lookup = config_lookup(configs);
        let channels = borrow_baselines(obs, &lookup, prior.channel_map());
        let readings = read_inputs(obs, &lookup, &channels, cfg);
        let exps = exponentiate(readings.as_slice(), cfg, exp);
        let discs = judge(&readings, cfg, exps.as_slice());
        proof {
            assert(channels@ == stateless_baselines(obs@, configs@, *prior));
            assert(exponentials(obs@, lookup@, channels@, *cfg, *exp, exps@));
            assert(discs@ =~= judgments(obs@, lookup@, channels@, *cfg, exps@));
        }
        Ok(fuse_core(obs, &lookup, &channels, prior.pair_map(), cfg, &discs))
    }

    /// Fuses one query as [`fuse_stateless`](Self::fuse_stateless) does, given the
    /// exponentials of each input's two squash arguments.
    pub fn fuse_stateless_with<Id: Hash + Eq + Clone>(
        obs: &[ChannelInput<Id>],
        configs: &[ChannelConfig],
        prior: &RuffleState,
        cfg: &FuseConfig,
        exps: &[(Double, Double)],
    ) -> (r: Result<Fused<Id>, ResumeError>)
        requires
            prior.wf(),
            identifies::<Id>(),
            exps@.len() == obs@.len(),
        ensures
            r is Ok <==> registrable(configs@, *cfg) && compatible(configs@, *prior, *cfg),
            !registrable(configs@, *cfg) ==> r->Err_0 is Config && registration_refusal(
                configs@,
                *cfg,
                r->Err_0->Config_0,
            ),
            registrable(configs@, *cfg) && !compatible(configs@, *prior, *cfg) ==> r->Err_0
                is State && state_refusal(configs@, *prior, *cfg, r->Err_0->State_0),
            r is Ok ==> fuses_statelessly(obs@, configs@, *prior, *cfg, exps@, r->Ok_0),
    {
        match validate_registrations(configs, cfg) {
            Ok(_) => {},
            Err(e) => {
                return Err(ResumeError::Config(e));
            },
        }
        match validate_against_state(configs, prior, cfg) {
            Ok(_) => {},
            Err(e) => {
                return Err(ResumeError::State(e));
            },
        }
        let lookup = config_lookup(configs);
        let channels = borrow_baselines(obs, &lookup, prior.channel_map());
        let readings = read_inputs(obs, &lookup, &channels, cfg);
        let discs = judge(&readings, cfg, exps);
        assert(discs@ =~= judgments(obs@, lookup@, channels@, *cfg, exps@));
        Ok(fuse_core(obs, &lookup, &channels, prior.pair_map(), cfg, &discs))
    }

    /// Folds a full-scored anchor's pairwise correlations into the persistent redundancy
    /// baselines. `sin` is the sine function.
    pub fn refresh_coupling<S: Fn(Double) -> Double>(&mut self, anchor: &Anchor, sin: &S)
        requires
            old(self).wf(),
            anchor.wf(),
            forall|x: Double| call_requires(*sin, (x,)),
        ensures
            final(self).wf(),
            final(self).registry() == old(self).registry(),
            final(self).settings() == old(self).settings(),
            final(self).held().version() == old(self).held().version(),
            final(self).held().stats() == old(self).held().stats(),
            final(self).held().channel_table() == old(self).held().channel_table(),
            exists|sines: Seq<Double>|
                #![trigger observed(anchor.channels@, all_rank_correlations(*anchor, old(self).settings().coupling), sines, sines.len() as int)]
                {
                    let list = all_rank_correlations(*anchor, old(self).settings().coupling);
                    &&& sines.len() == list.len()
                    &&& forall|i: int|
                        0 <= i < list.len() ==> call_ensures(
                            *sin,
                            (copula_argument(list[i].rho),),
                            #[trigger] sines[i],
                        )
                    &&& final(self).held().pair_table()@ == refreshed_pairs(
                        old(self).held().pair_table()@,
                        observed(anchor.channels@, list, sines, sines.len() as int),
                        old(self).settings(),
                    )
                },
            pairs_canonical(old(self).held().pair_table()@) ==> pairs_canonical(
                final(self).held().pair_table()@,
            ),
    {
        let observations = anchor_correlations(anchor, &self.cfg.coupling, sin);
        self.absorb_observations(&observations);
    }

    /// Folds pairwise observations into the persistent redundancy baselines.
    ///
    /// Each observation is merged in as a reading of its correlation, without spread and
    /// counted by its overlap; one refresh counts once, whatever its overlap.
    pub fn absorb_observations(
        &mut self,
        observations: &OrderedMap<UnorderedPair<String>, PairObservation>,
    )
        requires
            old(self).wf(),
            observations.wf(),
        ensures
            final(self).wf(),
            final(self).registry() == old(self).registry(),
            final(self).settings() == old(self).settings(),
            final(self).held().version() == old(self).held().version(),
            final(self).held().stats() == old(self).held().stats(),
            final(self).held().channel_table() == old(self).held().channel_table(),
            final(self).held().pair_table()@ == refreshed_pairs(
                old(self).held().pair_table()@,
                observations@,
                old(self).settings(),
            ),
            pairs_canonical(old(self).held().pair_table()@) && pairs_canonical(observations@)
                ==> pairs_canonical(final(self).held().pair_table()@),
    {
        let ghost s = observations.sequence();
        let ghost start = self.held().pair_table()@;
        let mut i: usize = 0;
        proof {
            assert(map_of(s.take(0)) =~= Map::<(Seq<char>, Seq<char>), PairObservation>::empty());
            assert(start =~= refreshed_pairs(start, map_of(s.take(0)), self.settings()));
        }
        while i < observations.len()
            invariant
                observations.wf(),
                s == observations.sequence(),
                i <= s.len(),
                self.wf(),
                self.registry() == old(self).registry(),
                self.settings() == old(self).settings(),
                self.held().version() == old(self).held().version(),
                self.held().stats() == old(self).held().stats(),
                self.held().channel_table() == old(self).held().channel_table(),
                self.held().pair_table()@ == refreshed_pairs(
                    start,
                    map_of(s.take(i as int)),
                    old(self).settings(),
                ),
            decreases s.len() - i,
        {
            proof {
                lemma_prefix_map(s, i as int);
            }
            let ghost m = map_of(s.take(i as int));
            let ghost k = s[i as int].0@;
            let pair = observations.key_at(i);
            let summary = match self.state.pair_map().get(pair) {
                Some(summary) => *summary,
                None => PairSummary::new(),
            };
            let next = refresh_pair(summary, observations.value_at(i), &self.cfg);
            self.state.put_pair(pair.duplicate(), next);
            proof {
                assert(self.held().pair_table()@ =~= refreshed_pairs(
                    start,
                    m.insert(k, s[i as int].1),
                    old(self).settings(),
                ));
            }
            i += 1;
        }
        assert(s.take(s.len() as int) =~= s);
    }
}

fn refresh_pair(s: PairSummary, o: &PairObservation, cfg: &FuseConfig) -> (r: PairSummary)
    ensures
        r == refreshed(s, *o, *cfg),
{
    let mut entry = s;
    if cfg.decay.enabled {
        entry.redundancy.decay(cfg.decay.factor);
        entry.refreshes = entry.refreshes * crate::summary::decay_factor(cfg.decay.factor);
    }
    let reading = MeanVar::from_prior(o.correlation, Double::zero(), Double::of_count(o.n_both));
    entry.redundancy.merge_in(&reading);
    entry.refreshes = entry.refreshes + Double::one();
    entry
}

fn fold_read(s: &ChannelSummary, d: &ChannelDiscrimination, cfg: &FuseConfig) -> (r: ChannelSummary)
    ensures
        r == folded(*s, *d, *cfg),
{
    let mut separation = s.separation;
    let mut reference = s.reference;
    if cfg.decay.enabled {
        separation.decay(cfg.decay.factor);
        reference.decay(cfg.decay.factor);
    }
    match d.raw_separation {
        Some(raw) => {
            let read = winsorize_separation(raw, &separation, &cfg.discrimination);
            separation.push(read);
        },
        None => {},
    }
    match d.top_m_average {
        Some(top) => {
            reference.push(top);
        },
        None => {},
    }
    ChannelSummary { separation, reference, tag: s.tag.clone() }
}

/// Reads every input that is registered and has a baseline and scores.
fn read_inputs<Id>(
    obs: &[ChannelInput<Id>],
    configs: &OrderedMap<String, ChannelConfig>,
    channels: &OrderedMap<String, ChannelSummary>,
    cfg: &FuseConfig,
) -> (readings: Vec<Option<PoolReading>>)
    requires
        configs.wf(),
        channels.wf(),
    ensures
        readings@.len() == obs@.len(),
        forall|i: int|
            0 <= i < obs@.len() ==> #[trigger] readings@[i] == reading_at(
                obs@,
                configs@,
                channels@,
                *cfg,
                i,
            ),
{
    let mut readings: Vec<Option<PoolReading>> = Vec::new();
    let mut i: usize = 0;
    while i < obs.len()
        invariant
            configs.wf(),
            channels.wf(),
            i <= obs@.len(),
            readings@.len() == i,
            forall|h: int|
                0 <= h < i ==> #[trigger] readings@[h] == reading_at(
                    obs@,
                    configs@,
                    channels@,
                    *cfg,
                    h,
                ),
        decreases obs@.len() - i,
    {
        let o = &obs[i];
        let reading = if configs.contains_key(&o.key) {
            match channels.get(&o.key) {
                Some(summary) => read_items(
                    &o.items,
                    &summary.separation,
                    &summary.reference,
                    &cfg.discrimination,
                ),
                None => None,
            }
        } else {
            None
        };
        readings.push(reading);
        i += 1;
    }
    readings
}

/// Asks for the exponentials of every reading's squash arguments.
fn exponentiate<E: Fn(Double) -> Double>(
    readings: &[Option<PoolReading>],
    cfg: &FuseConfig,
    exp: &E,
) -> (exps: Vec<(Double, Double)>)
    requires
        forall|x: Double| call_requires(*exp, (x,)),
    ensures
        exps@.len() == readings@.len(),
        forall|i: int|
            0 <= i < readings@.len() ==> exponentiated(
                readings@[i],
                *cfg,
                *exp,
                #[trigger] exps@[i],
            ),
{
    let mut exps: Vec<(Double, Double)> = Vec::new();
    let mut i: usize = 0;
    while i < readings.len()
        invariant
            forall|x: Double| call_requires(*exp, (x,)),
            i <= readings@.len(),
            exps@.len() == i,
            forall|h: int|
                0 <= h < i ==> exponentiated(readings@[h], *cfg, *exp, #[trigger] exps@[h]),
        decreases readings@.len() - i,
    {
        let slope = cfg.discrimination.g_slope;
        let pair = match readings[i] {
            Some(r) => {
                let separation_exp = exp(squash_input(r.separation_z, slope));
                let goodness_exp = match r.goodness_z {
                    Some(z) => exp(squash_input(z, slope)),
                    None => Double::zero(),
                };
                (separation_exp, goodness_exp)
            },
            None => (Double::zero(), Double::zero()),
        };
        assert(exponentiated(readings@[i as int], *cfg, *exp, pair));
        exps.push(pair);
        i += 1;
    }
    exps
}

/// Turns readings into discriminations, given the exponentials.
fn judge(
    readings: &Vec<Option<PoolReading>>,
    cfg: &FuseConfig,
    exps: &[(Double, Double)],
) -> (discs: Vec<ChannelDiscrimination>)
    requires
        exps@.len() == readings@.len(),
    ensures
        discs@.len() == readings@.len(),
        forall|i: int|
            0 <= i < discs@.len() ==> #[trigger] discs@[i] == judged(readings@[i], *cfg, exps@[i]),
{
    let mut discs: Vec<ChannelDiscrimination> = Vec::new();
    let mut i: usize = 0;
    while i < readings.len()
        invariant
            exps@.len() == readings@.len(),
            i <= readings@.len(),
            discs@.len() == i,
            forall|h: int|
                0 <= h < i ==> #[trigger] discs@[h] == judged(readings@[h], *cfg, exps@[h]),
        decreases readings@.len() - i,
    {
        let disc = match &readings[i] {
            Some(r) => discriminate_with(r, &cfg.discrimination, exps[i].0, exps[i].1),
            None => neutral(),
        };
        discs.push(disc);
        i += 1;
    }
    discs
}

/// The baselines of one query that leaves no trace.
fn borrow_baselines<Id>(
    obs: &[ChannelInput<Id>],
    configs: &OrderedMap<String, ChannelConfig>,
    prior_channels: &OrderedMap<String, ChannelSummary>,
) -> (channels: OrderedMap<String, ChannelSummary>)
    requires
        configs.wf(),
        prior_channels.wf(),
    ensures
        channels.wf(),
        channels@ == borrowed_channels(obs@, configs@, prior_channels@, obs@.len() as int),
{
    let mut channels: OrderedMap<String, ChannelSummary> = OrderedMap::new();
    let mut i: usize = 0;
    while i < obs.len()
        invariant
            configs.wf(),
            prior_channels.wf(),
            i <= obs@.len(),
            channels.wf(),
            channels@ == borrowed_channels(obs@, configs@, prior_channels@, i as int),
        decreases obs@.len() - i,
    {
        let key = &obs[i].key;
        match configs.get(key) {
            Some(c) => {
                if !channels.contains_key(key) {
                    let summary = match prior_channels.get(key) {
                        Some(summary) => summary.copied(),
                        None => seed_summary(c),
                    };
                    channels.insert(key.clone(), summary);
                }
            },
            None => {},
        }
        i += 1;
    }
    channels
}

} // verus!
