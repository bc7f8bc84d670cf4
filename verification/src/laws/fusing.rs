//! Laws of the fuser: determinism, what a query leaves untouched, and what can be resumed.
use crate::config::{is_non_negative, ChannelConfig, FuseConfig};
use crate::double::{fcount, fle, flt, fneg, fone, fzero, lemma_count_finite, Double};
use crate::exact::{lemma_mul_zero, lemma_one};
use crate::fuser::{
    agrees, baselines, bases_of, compatible, entering, enters, enumerates, exponentials,
    exponentiated, flags_of, fuses_to, gains, in_key_order, judged, judgments,
    lemma_enumeration_unique, orientations, query_weights, reading_at, reads_of, registered,
    registrable, registrable_at, repeats, seed, seeded_channels, seeded_directions, tilted, Fused,
    Fuser,
};
use crate::ingest::input::ChannelInput;
use crate::keys::STAT_VERSION;
use crate::laws::ranking::lemma_neutral_weights_are_plain;
use crate::laws::weights::{
    lemma_cold_channel_is_neutral, lemma_equal_bases_change_nothing, lemma_even_channels_weigh_one,
};
use crate::score::Direction;
use crate::state::{ChannelSummary, PairSummary, FORMAT_VERSION};
use crate::weighting::coupling::{coupled, keyed, ones};
use crate::weighting::discrimination::{discrimination, squash_argument, ChannelDiscrimination};
use crate::weighting::fusion::fused_ranking;
use vstd::prelude::*;

verus! {

/// `f` always answers the same.
pub open spec fn functional<F: Fn(Double) -> Double>(f: F) -> bool {
    forall|x: Double, a: Double, b: Double|
        #![trigger call_ensures(f, (x,), a), call_ensures(f, (x,), b)]
        call_ensures(f, (x,), a) && call_ensures(f, (x,), b) ==> a == b
}

/// What the exponential answers decides every discrimination.
proof fn lemma_same_judgments<Id, E: Fn(Double) -> Double>(
    obs: Seq<ChannelInput<Id>>,
    registry: Map<Seq<char>, ChannelConfig>,
    channels: Map<Seq<char>, ChannelSummary>,
    cfg: FuseConfig,
    exp: E,
    x: Seq<(Double, Double)>,
    y: Seq<(Double, Double)>,
)
    requires
        functional(exp),
        exponentials(obs, registry, channels, cfg, exp, x),
        exponentials(obs, registry, channels, cfg, exp, y),
    ensures
        judgments(obs, registry, channels, cfg, x) == judgments(obs, registry, channels, cfg, y),
{
    let a = judgments(obs, registry, channels, cfg, x);
    let b = judgments(obs, registry, channels, cfg, y);
    assert forall|i: int| 0 <= i < obs.len() implies #[trigger] a[i] == b[i] by {
        let r = reading_at(obs, registry, channels, cfg, i);
        assert(exponentiated(r, cfg, exp, x[i]));
        assert(exponentiated(r, cfg, exp, y[i]));
    }
    assert(a =~= b);
}

/// Fusion is deterministic: the same fuser, inputs and exponential give the same ranking,
/// weights, flags, reads and diagnostics, and leave the same state behind.
pub proof fn lemma_fuse_is_deterministic<Id, E: Fn(Double) -> Double>(
    f: Fuser,
    obs: Seq<ChannelInput<Id>>,
    exp: E,
    x: Seq<(Double, Double)>,
    y: Seq<(Double, Double)>,
    after_x: Fuser,
    after_y: Fuser,
    fused_x: Fused<Id>,
    fused_y: Fused<Id>,
)
    requires
        functional(exp),
        exponentials(obs, f.registry()@, f.baselines_for(obs), f.settings(), exp, x),
        exponentials(obs, f.registry()@, f.baselines_for(obs), f.settings(), exp, y),
        f.fuses(obs, x, after_x, fused_x),
        f.fuses(obs, y, after_y, fused_y),
    ensures
        fused_x.ranking@ == fused_y.ranking@,
        fused_x.weights@ == fused_y.weights@,
        fused_x.flags@ == fused_y.flags@,
        fused_x.discrimination@ == fused_y.discrimination@,
        fused_x.confidence == fused_y.confidence,
        fused_x.conflict == fused_y.conflict,
        crate::state::same_contents(after_x.held(), after_y.held()),
{
    lemma_same_judgments(
        obs,
        f.registry()@,
        f.baselines_for(obs),
        f.settings(),
        exp,
        x,
        y,
    );
}

/// A channel that no input of a query names keeps its baselines and its orientation.
pub proof fn lemma_absent_channel_untouched<Id>(
    f: Fuser,
    obs: Seq<ChannelInput<Id>>,
    exps: Seq<(Double, Double)>,
    after: Fuser,
    fused: Fused<Id>,
    key: Seq<char>,
)
    requires
        f.fuses(obs, exps, after, fused),
        forall|i: int| 0 <= i < obs.len() ==> (#[trigger] obs[i]).key@ != key,
    ensures
        after.held().channel_table()@.contains_key(key) == f.held().channel_table()@.contains_key(
            key,
        ),
        f.held().channel_table()@.contains_key(key) ==> after.held().channel_table()@[key]
            == f.held().channel_table()@[key],
        after.held().stats().directions@.contains_key(key)
            == f.held().stats().directions@.contains_key(key),
        f.held().stats().directions@.contains_key(key) ==> after.held().stats().directions@[key]
            == f.held().stats().directions@[key],
        !fused.weights@.contains_key(key),
        !fused.flags@.contains_key(key),
        !fused.discrimination@.contains_key(key),
{
    let n = obs.len() as int;
    let registry = f.registry()@;
    let channels = f.baselines_for(obs);
    let discs = judgments(obs, registry, channels, f.settings(), exps);
    lemma_seeds_only_named(obs, registry, f.held().channel_table()@, n, key);
    lemma_orients_only_named(obs, registry, f.held().stats().directions@, n, key);
    lemma_reads_only_named(obs, registry, channels, discs, n, key);
    lemma_reads_finite(obs, registry, channels, discs, n);
    lemma_weights_only_read(
        reads_of(obs, registry, channels, discs, n),
        registry,
        f.held().pair_table()@,
        f.settings(),
        key,
    );
}

proof fn lemma_seeds_only_named<Id>(
    obs: Seq<ChannelInput<Id>>,
    registry: Map<Seq<char>, ChannelConfig>,
    channels: Map<Seq<char>, ChannelSummary>,
    n: int,
    key: Seq<char>,
)
    requires
        0 <= n <= obs.len(),
        forall|i: int| 0 <= i < n ==> (#[trigger] obs[i]).key@ != key,
    ensures
        seeded_channels(obs, registry, channels, n).contains_key(key) == channels.contains_key(key),
        channels.contains_key(key) ==> seeded_channels(obs, registry, channels, n)[key]
            == channels[key],
    decreases n,
{
    if n > 0 {
        lemma_seeds_only_named(obs, registry, channels, n - 1, key);
        assert(obs[n - 1].key@ != key);
    }
}

proof fn lemma_orients_only_named<Id>(
    obs: Seq<ChannelInput<Id>>,
    registry: Map<Seq<char>, ChannelConfig>,
    directions: Map<Seq<char>, Direction>,
    n: int,
    key: Seq<char>,
)
    requires
        0 <= n <= obs.len(),
        forall|i: int| 0 <= i < n ==> (#[trigger] obs[i]).key@ != key,
    ensures
        seeded_directions(obs, registry, directions, n).contains_key(key)
            == directions.contains_key(key),
        directions.contains_key(key) ==> seeded_directions(obs, registry, directions, n)[key]
            == directions[key],
    decreases n,
{
    if n > 0 {
        lemma_orients_only_named(obs, registry, directions, n - 1, key);
        assert(obs[n - 1].key@ != key);
    }
}

proof fn lemma_reads_only_named<Id>(
    obs: Seq<ChannelInput<Id>>,
    registry: Map<Seq<char>, ChannelConfig>,
    channels: Map<Seq<char>, ChannelSummary>,
    discs: Seq<ChannelDiscrimination>,
    n: int,
    key: Seq<char>,
)
    requires
        0 <= n <= obs.len(),
        forall|i: int| 0 <= i < n ==> (#[trigger] obs[i]).key@ != key,
    ensures
        !reads_of(obs, registry, channels, discs, n).contains_key(key),
        !flags_of(obs, registry, channels, discs, n).contains_key(key),
    decreases n,
{
    if n > 0 {
        lemma_reads_only_named(obs, registry, channels, discs, n - 1, key);
        assert(obs[n - 1].key@ != key);
    }
}

proof fn lemma_keyed_members(keys: Seq<Seq<char>>, values: Seq<Double>, n: int, key: Seq<char>)
    requires
        0 <= n <= keys.len(),
        keyed(keys, values, n).contains_key(key),
    ensures
        keys.contains(key),
    decreases n,
{
    if n > 0 {
        if keys[n - 1] == key {
            assert(keys.contains(key));
        } else {
            lemma_keyed_members(keys, values, n - 1, key);
        }
    }
}

/// The keys of a finite set can be listed in order.
pub proof fn lemma_enumerable(set: Set<Seq<char>>)
    requires
        set.finite(),
    ensures
        enumerates(in_key_order(set), set),
        in_key_order(set).len() == set.len(),
{
    let list = lemma_enumeration_exists(set);
    assert(enumerates(list, set));
    let order = in_key_order(set);
    lemma_enumeration_unique(list, order, set);
    assert(list.no_duplicates()) by {
        assert forall|i: int, j: int|
            0 <= i < list.len() && 0 <= j < list.len() && i != j implies list[i] != list[j] by {
            crate::ordered::lemma_text_order(list[i], list[i], list[i]);
            if i < j {
                assert(crate::ordered::text_before(list[i], list[j]));
            } else {
                assert(crate::ordered::text_before(list[j], list[i]));
            }
        }
    }
    list.unique_seq_to_set();
    assert(list.to_set() =~= set);
}

proof fn lemma_enumeration_exists(set: Set<Seq<char>>) -> (list: Seq<Seq<char>>)
    requires
        set.finite(),
    ensures
        enumerates(list, set),
    decreases set.len(),
{
    if set.len() == 0 {
        assert(set =~= Set::empty());
        Seq::empty()
    } else {
        let k = set.choose();
        let rest = lemma_enumeration_exists(set.remove(k));
        lemma_insert_key(rest, set.remove(k), k, rest.len() as int)
    }
}

proof fn lemma_insert_key(
    rest: Seq<Seq<char>>,
    set: Set<Seq<char>>,
    k: Seq<char>,
    p: int,
) -> (list: Seq<Seq<char>>)
    requires
        enumerates(rest, set),
        !set.contains(k),
        0 <= p <= rest.len(),
        forall|q: int| p <= q < rest.len() ==> crate::ordered::text_before(k, #[trigger] rest[q]),
    ensures
        enumerates(list, set.insert(k)),
    decreases p,
{
    if p > 0 && crate::ordered::text_before(k, rest[p - 1]) {
        lemma_insert_key(rest, set, k, p - 1)
    } else {
        let list = rest.insert(p, k);
        if p > 0 {
            crate::ordered::lemma_text_order(k, rest[p - 1], k);
            assert(rest.contains(rest[p - 1]));
        }
        assert forall|i: int, j: int|
            #![trigger list[i], list[j]]
            0 <= i < j < list.len() implies crate::ordered::text_before(list[i], list[j]) by {
            if j == p {
                assert(list[i] == rest[i]);
                if i < p - 1 {
                    assert(crate::ordered::text_before(rest[i], rest[p - 1]));
                    crate::ordered::lemma_text_order(rest[i], rest[p - 1], k);
                }
            } else if i == p {
                assert(list[j] == rest[j - 1]);
            } else {
                let a = if i < p {
                    i
                } else {
                    i - 1
                };
                let b = if j < p {
                    j
                } else {
                    j - 1
                };
                assert(list[i] == rest[a] && list[j] == rest[b]);
                assert(crate::ordered::text_before(rest[a], rest[b]));
            }
        }
        assert forall|x: Seq<char>| #[trigger] set.insert(k).contains(x) <==> list.contains(x) by {
            if set.contains(x) {
                assert(rest.contains(x));
                let q = choose|q: int| 0 <= q < rest.len() && rest[q] == x;
                assert(list[if q < p {
                    q
                } else {
                    q + 1
                }] == x);
            }
            if list.contains(x) {
                let q = choose|q: int| 0 <= q < list.len() && list[q] == x;
                if q < p {
                    assert(rest[q] == x);
                    assert(rest.contains(x));
                } else if q > p {
                    assert(rest[q - 1] == x);
                    assert(rest.contains(x));
                }
            }
            assert(list[p] == k);
        }
        list
    }
}

proof fn lemma_weights_only_read(
    reads: Map<Seq<char>, ChannelDiscrimination>,
    registry: Map<Seq<char>, ChannelConfig>,
    pairs: Map<(Seq<char>, Seq<char>), PairSummary>,
    cfg: FuseConfig,
    key: Seq<char>,
)
    requires
        reads.dom().finite(),
        !reads.contains_key(key),
    ensures
        !query_weights(reads, registry, pairs, cfg).contains_key(key),
{
    lemma_enumerable(reads.dom());
    let keys = in_key_order(reads.dom());
    if query_weights(reads, registry, pairs, cfg).contains_key(key) {
        let values = tilted(
            coupled(gains(reads), baselines(pairs), keys, cfg.coupling),
            bases_of(registry, keys),
        );
        lemma_keyed_members(keys, values, keys.len() as int, key);
        assert(reads.dom().contains(key));
    }
}

pub proof fn lemma_reads_finite<Id>(
    obs: Seq<ChannelInput<Id>>,
    registry: Map<Seq<char>, ChannelConfig>,
    channels: Map<Seq<char>, ChannelSummary>,
    discs: Seq<ChannelDiscrimination>,
    n: int,
)
    requires
        0 <= n,
    ensures
        reads_of(obs, registry, channels, discs, n).dom().finite(),
        reads_of(obs, registry, channels, discs, n).dom().len() <= n,
    decreases n,
{
    if n > 0 {
        lemma_reads_finite(obs, registry, channels, discs, n - 1);
    }
}

/// Distinct registrations stand each under its own key.
proof fn lemma_registered_distinct(configs: Seq<ChannelConfig>, n: int, i: int)
    requires
        0 <= i < n <= configs.len(),
        forall|h: int| 0 <= h < configs.len() ==> !#[trigger] repeats(configs, h),
    ensures
        registered(configs, n).contains_key(configs[i].id.key@),
        registered(configs, n)[configs[i].id.key@] == configs[i],
    decreases n,
{
    if i < n - 1 {
        lemma_registered_distinct(configs, n - 1, i);
        assert(!repeats(configs, n - 1));
        assert(configs[i].id.key@ != configs[n - 1].id.key@);
    }
}

/// A fresh fuser's state can be resumed under its own registrations.
pub proof fn lemma_fresh_state_resumes(configs: Seq<ChannelConfig>, f: Fuser)
    requires
        registrable(configs, f.settings()),
        f.held().version() == FORMAT_VERSION,
        f.held().stats().stat_version == STAT_VERSION,
        f.held().stats().baseline_mode == f.settings().baseline_mode,
        f.held().stats().directions@ == orientations(configs, configs.len() as int),
        f.held().channel_table()@ == Map::<Seq<char>, ChannelSummary>::empty(),
    ensures
        compatible(configs, f.held(), f.settings()),
{
    assert forall|i: int| 0 <= i < configs.len() implies agrees(#[trigger] configs[i], f.held()) by {
        lemma_orientations_distinct(configs, configs.len() as int, i, f.settings());
    }
}

proof fn lemma_orientations_distinct(
    configs: Seq<ChannelConfig>,
    n: int,
    i: int,
    cfg: FuseConfig,
)
    requires
        0 <= i < n <= configs.len(),
        registrable(configs, cfg),
    ensures
        orientations(configs, n).contains_key(configs[i].id.key@),
        orientations(configs, n)[configs[i].id.key@] == configs[i].direction,
    decreases n,
{
    if i < n - 1 {
        lemma_orientations_distinct(configs, n - 1, i, cfg);
        assert(registrable_at(configs, n - 1));
        assert(!repeats(configs, n - 1));
        assert(configs[i].id.key@ != configs[n - 1].id.key@);
    }
}

/// What is saved can be resumed: after any query, the state that a fuser holds is accepted
/// under the registrations it was built with.
pub proof fn lemma_saved_state_resumes<Id>(
    configs: Seq<ChannelConfig>,
    f: Fuser,
    obs: Seq<ChannelInput<Id>>,
    exps: Seq<(Double, Double)>,
    after: Fuser,
    fused: Fused<Id>,
)
    requires
        registrable(configs, f.settings()),
        f.registry()@ == registered(configs, configs.len() as int),
        compatible(configs, f.held(), f.settings()),
        f.fuses(obs, exps, after, fused),
    ensures
        after.registry()@ == registered(configs, configs.len() as int),
        compatible(configs, after.held(), after.settings()),
{
    let n = obs.len() as int;
    let registry = f.registry()@;
    assert forall|i: int| 0 <= i < configs.len() implies agrees(
        #[trigger] configs[i],
        after.held(),
    ) by {
        let c = configs[i];
        let key = c.id.key@;
        assert forall|h: int| 0 <= h < configs.len() implies !#[trigger] repeats(configs, h) by {
            assert(registrable_at(configs, h));
        }
        lemma_registered_distinct(configs, configs.len() as int, i);
        assert(agrees(c, f.held()));
        lemma_seeded_tag(obs, registry, f.held().channel_table()@, n, key);
        lemma_seeded_direction(obs, registry, f.held().stats().directions@, n, key);
    }
}

/// A seeded summary has its registration's tag.
proof fn lemma_seeded_tag<Id>(
    obs: Seq<ChannelInput<Id>>,
    registry: Map<Seq<char>, ChannelConfig>,
    channels: Map<Seq<char>, ChannelSummary>,
    n: int,
    key: Seq<char>,
)
    requires
        0 <= n <= obs.len(),
        registry.contains_key(key),
        channels.contains_key(key) ==> channels[key].tag@ == registry[key].id.tag@,
    ensures
        seeded_channels(obs, registry, channels, n).contains_key(key) ==> seeded_channels(
            obs,
            registry,
            channels,
            n,
        )[key].tag@ == registry[key].id.tag@,
    decreases n,
{
    if n > 0 {
        lemma_seeded_tag(obs, registry, channels, n - 1, key);
    }
}

proof fn lemma_seeded_direction<Id>(
    obs: Seq<ChannelInput<Id>>,
    registry: Map<Seq<char>, ChannelConfig>,
    directions: Map<Seq<char>, Direction>,
    n: int,
    key: Seq<char>,
)
    requires
        0 <= n <= obs.len(),
        registry.contains_key(key),
        directions.contains_key(key) ==> directions[key] == registry[key].direction,
    ensures
        seeded_directions(obs, registry, directions, n).contains_key(key) ==> seeded_directions(
            obs,
            registry,
            directions,
            n,
        )[key] == registry[key].direction,
    decreases n,
{
    if n > 0 {
        lemma_seeded_direction(obs, registry, directions, n - 1, key);
    }
}

/// An input that is not registered leaves no trace: with it or without it, the same inputs
/// enter, with the same reads and flags, and the same baselines are seeded.
pub proof fn lemma_unregistered_input_is_ignored<Id>(
    obs: Seq<ChannelInput<Id>>,
    registry: Map<Seq<char>, ChannelConfig>,
    channels: Map<Seq<char>, ChannelSummary>,
    directions: Map<Seq<char>, Direction>,
    discs: Seq<ChannelDiscrimination>,
    p: int,
)
    requires
        0 <= p < obs.len(),
        discs.len() == obs.len(),
        !registry.contains_key(obs[p].key@),
    ensures
        ({
            let n = obs.len() as int;
            let fewer = obs.remove(p);
            let fewer_discs = discs.remove(p);
            &&& entering(fewer, registry, channels, n - 1) == entering(obs, registry, channels, n)
            &&& reads_of(fewer, registry, channels, fewer_discs, n - 1) == reads_of(
                obs,
                registry,
                channels,
                discs,
                n,
            )
            &&& flags_of(fewer, registry, channels, fewer_discs, n - 1) == flags_of(
                obs,
                registry,
                channels,
                discs,
                n,
            )
            &&& seeded_channels(fewer, registry, channels, n - 1) == seeded_channels(
                obs,
                registry,
                channels,
                n,
            )
            &&& seeded_directions(fewer, registry, directions, n - 1) == seeded_directions(
                obs,
                registry,
                directions,
                n,
            )
        }),
{
    lemma_ignored_below(obs, registry, channels, directions, discs, p, obs.len() as int);
}

proof fn lemma_ignored_below<Id>(
    obs: Seq<ChannelInput<Id>>,
    registry: Map<Seq<char>, ChannelConfig>,
    channels: Map<Seq<char>, ChannelSummary>,
    directions: Map<Seq<char>, Direction>,
    discs: Seq<ChannelDiscrimination>,
    p: int,
    n: int,
)
    requires
        0 <= p < obs.len(),
        0 <= n <= obs.len(),
        discs.len() == obs.len(),
        !registry.contains_key(obs[p].key@),
    ensures
        ({
            let fewer = obs.remove(p);
            let fewer_discs = discs.remove(p);
            let m = if n > p {
                n - 1
            } else {
                n
            };
            &&& entering(fewer, registry, channels, m) == entering(obs, registry, channels, n)
            &&& reads_of(fewer, registry, channels, fewer_discs, m) == reads_of(
                obs,
                registry,
                channels,
                discs,
                n,
            )
            &&& flags_of(fewer, registry, channels, fewer_discs, m) == flags_of(
                obs,
                registry,
                channels,
                discs,
                n,
            )
            &&& seeded_channels(fewer, registry, channels, m) == seeded_channels(
                obs,
                registry,
                channels,
                n,
            )
            &&& seeded_directions(fewer, registry, directions, m) == seeded_directions(
                obs,
                registry,
                directions,
                n,
            )
        }),
    decreases n,
{
    if n > 0 {
        lemma_ignored_below(obs, registry, channels, directions, discs, p, n - 1);
        let fewer = obs.remove(p);
        if n - 1 != p {
            let i = n - 1;
            let j = if i > p {
                i - 1
            } else {
                i
            };
            assert(fewer[j] == obs[i]);
            assert(discs.remove(p)[j] == discs[i]);
            if registry.contains_key(obs[i].key@) && channels.contains_key(obs[i].key@) {
                assert(enters(fewer, registry, channels, j) == enters(obs, registry, channels, i))
                    by {
                    if enters(obs, registry, channels, i) {
                        assert forall|h: int| 0 <= h < j implies (#[trigger] fewer[h]).key@
                            != fewer[j].key@ by {
                            let g = if h < p {
                                h
                            } else {
                                h + 1
                            };
                            assert(fewer[h] == obs[g]);
                            assert(obs[g].key@ != obs[i].key@);
                        }
                    }
                    if enters(fewer, registry, channels, j) {
                        assert forall|g: int| 0 <= g < i implies (#[trigger] obs[g]).key@
                            != obs[i].key@ by {
                            if g != p {
                                let h = if g < p {
                                    g
                                } else {
                                    g - 1
                                };
                                assert(fewer[h] == obs[g]);
                                assert(fewer[h].key@ != fewer[j].key@);
                            }
                        }
                    }
                }
            }
        }
    }
}

/// If one key appears more than once, only the first input enters.
pub proof fn lemma_repeated_input_is_ignored<Id>(
    obs: Seq<ChannelInput<Id>>,
    registry: Map<Seq<char>, ChannelConfig>,
    channels: Map<Seq<char>, ChannelSummary>,
    i: int,
    j: int,
)
    requires
        0 <= i < j < obs.len(),
        obs[i].key@ == obs[j].key@,
    ensures
        !enters(obs, registry, channels, j),
        entering(obs, registry, channels, j + 1) == entering(obs, registry, channels, j),
{
    assert(obs[i].key@ == obs[j].key@);
}

/// The exponential of nought is one.
pub open spec fn fixes_zero<E: Fn(Double) -> Double>(exp: E) -> bool {
    forall|x: Double, e: Double| #[trigger]
        call_ensures(exp, (x,), e) && x.vanishes() ==> e == fone()
}

/// Without a usable prior fusion is plain: on baselines that say nothing yet, with coupling
/// off and equal base weights, every weight is exactly one, and the ranking is that of
/// reciprocal-rank fusion without weights.
pub proof fn lemma_cold_fusion_is_plain<Id, E: Fn(Double) -> Double>(
    obs: Seq<ChannelInput<Id>>,
    registry: Map<Seq<char>, ChannelConfig>,
    channels: Map<Seq<char>, ChannelSummary>,
    pairs: Map<(Seq<char>, Seq<char>), PairSummary>,
    cfg: FuseConfig,
    exp: E,
    exps: Seq<(Double, Double)>,
    base: Double,
    fused: Fused<Id>,
)
    requires
        obs.len() <= 0x20_0000_0000_0000,
        forall|i: int| 0 <= i < obs.len() ==> (#[trigger] obs[i]).items.size() <= usize::MAX,
        fixes_zero(exp),
        exponentials(obs, registry, channels, cfg, exp, exps),
        fuses_to(
            obs,
            registry,
            channels,
            pairs,
            cfg,
            judgments(obs, registry, channels, cfg, exps),
            fused,
        ),
        // Nothing has been learned and nothing declared.
        forall|k: Seq<char>| #[trigger]
            channels.contains_key(k) ==> !fle(
                cfg.discrimination.min_count_for_z,
                channels[k].separation.count,
            ) && fle(channels[k].reference.count, fzero()),
        forall|k: Seq<char>| #[trigger]
            registry.contains_key(k) ==> registry[k].base_weight == base,
        flt(fzero(), base),
        // Coupling is off, and the knobs admit the neutral weight.
        !cfg.coupling.enabled,
        cfg.discrimination.shrink_pool_size >= 1,
        cfg.discrimination.g_slope.finite(),
        fle(cfg.discrimination.g_floor, fone()),
        fle(fone(), cfg.discrimination.g_upper_bound),
    ensures
        forall|k: Seq<char>| #[trigger] fused.weights@.contains_key(k) ==> fused.weights@[k]
            == fone(),
        fused.ranking@ == fused_ranking(
            entering(obs, registry, channels, obs.len() as int),
            Map::empty(),
            cfg.fusion.rrf_eta,
        ),
{
    let n = obs.len() as int;
    let discs = judgments(obs, registry, channels, cfg, exps);
    let reads = reads_of(obs, registry, channels, discs, n);
    assert forall|i: int| 0 <= i < n implies (#[trigger] discs[i]).g == fone() by {
        assert(exponentiated(
            reading_at(obs, registry, channels, cfg, i),
            cfg,
            exp,
            exps[i],
        ));
        lemma_cold_judgment(obs, registry, channels, cfg, exp, exps[i], i);
    }
    lemma_reads_neutral(obs, registry, channels, discs, n);
    lemma_reads_finite(obs, registry, channels, discs, n);
    lemma_enumerable(reads.dom());
    let keys = in_key_order(reads.dom());
    assert forall|i: int| 0 <= i < keys.len() implies gains(reads).contains_key(#[trigger] keys[i])
        && gains(reads)[keys[i]] == fone() by {
        assert(keys.contains(keys[i]));
        assert(reads.dom().contains(keys[i]));
    }
    lemma_even_channels_weigh_one(gains(reads), baselines(pairs), keys, cfg.coupling);
    let bases = bases_of(registry, keys);
    assert forall|i: int| 0 <= i < bases.len() implies #[trigger] bases[i] == base by {
        assert(keys.contains(keys[i]));
        assert(reads.dom().contains(keys[i]));
        lemma_reads_registered(obs, registry, channels, discs, n, keys[i]);
    }
    lemma_equal_bases_change_nothing(ones(keys.len()), bases, base);
    assert forall|k: Seq<char>| #[trigger] fused.weights@.contains_key(k) implies fused.weights@[k]
        == fone() by {
        lemma_keyed_ones(keys, keys.len() as int, k);
    }
    lemma_neutral_weights_are_plain(
        entering(obs, registry, channels, n),
        fused.weights@,
        cfg.fusion.rrf_eta,
    );
}

proof fn lemma_keyed_ones(keys: Seq<Seq<char>>, n: int, k: Seq<char>)
    requires
        0 <= n <= keys.len(),
        keyed(keys, ones(keys.len()), n).contains_key(k),
    ensures
        keyed(keys, ones(keys.len()), n)[k] == fone(),
    decreases n,
{
    if n > 0 && keys[n - 1] != k {
        lemma_keyed_ones(keys, n - 1, k);
    }
}

proof fn lemma_reads_registered<Id>(
    obs: Seq<ChannelInput<Id>>,
    registry: Map<Seq<char>, ChannelConfig>,
    channels: Map<Seq<char>, ChannelSummary>,
    discs: Seq<ChannelDiscrimination>,
    n: int,
    k: Seq<char>,
)
    requires
        reads_of(obs, registry, channels, discs, n).contains_key(k),
    ensures
        registry.contains_key(k),
    decreases n,
{
    if n > 0 {
        if !(enters(obs, registry, channels, n - 1) && obs[n - 1].key@ == k) {
            lemma_reads_registered(obs, registry, channels, discs, n - 1, k);
        }
    }
}

proof fn lemma_reads_neutral<Id>(
    obs: Seq<ChannelInput<Id>>,
    registry: Map<Seq<char>, ChannelConfig>,
    channels: Map<Seq<char>, ChannelSummary>,
    discs: Seq<ChannelDiscrimination>,
    n: int,
)
    requires
        0 <= n <= discs.len(),
        forall|i: int| 0 <= i < discs.len() ==> (#[trigger] discs[i]).g == fone(),
    ensures
        forall|k: Seq<char>| #[trigger]
            reads_of(obs, registry, channels, discs, n).contains_key(k) ==> reads_of(
                obs,
                registry,
                channels,
                discs,
                n,
            )[k].g == fone(),
    decreases n,
{
    if n > 0 {
        lemma_reads_neutral(obs, registry, channels, discs, n - 1);
        assert(discs[n - 1].g == fone());
    }
}

/// A channel with cold baselines is judged neutral.
proof fn lemma_cold_judgment<Id, E: Fn(Double) -> Double>(
    obs: Seq<ChannelInput<Id>>,
    registry: Map<Seq<char>, ChannelConfig>,
    channels: Map<Seq<char>, ChannelSummary>,
    cfg: FuseConfig,
    exp: E,
    pair: (Double, Double),
    i: int,
)
    requires
        0 <= i < obs.len(),
        obs[i].items.size() <= usize::MAX,
        fixes_zero(exp),
        exponentiated(reading_at(obs, registry, channels, cfg, i), cfg, exp, pair),
        channels.contains_key(obs[i].key@) ==> !fle(
            cfg.discrimination.min_count_for_z,
            channels[obs[i].key@].separation.count,
        ) && fle(channels[obs[i].key@].reference.count, fzero()),
        cfg.discrimination.shrink_pool_size >= 1,
        cfg.discrimination.g_slope.finite(),
        fle(cfg.discrimination.g_floor, fone()),
        fle(fone(), cfg.discrimination.g_upper_bound),
    ensures
        judged(reading_at(obs, registry, channels, cfg, i), cfg, pair).g == fone(),
{
    match reading_at(obs, registry, channels, cfg, i) {
        Some(r) => {
            let k = cfg.discrimination.g_slope;
            let m = obs[i].items.size() as int;
            assert(r.separation_z == fzero());
            assert(r.goodness_z is None);
            lemma_mul_zero(fneg(k));
            assert(squash_argument(r.separation_z, k).vanishes());
            assert(pair.0 == fone());
            let s = cfg.discrimination.shrink_pool_size as int;
            lemma_count_finite(m);
            lemma_count_finite(s);
            lemma_one();
            crate::laws::ranking::lemma_quotient_known(fcount(m), fcount(s));
            crate::double::lemma_quotient_sign(fcount(m), fcount(s));
            lemma_cold_channel_is_neutral(r, cfg.discrimination, pair.1);
        },
        None => {},
    }
}

proof fn lemma_keyed_value(keys: Seq<Seq<char>>, values: Seq<Double>, n: int, k: Seq<char>) -> (i:
    int)
    requires
        0 <= n <= keys.len(),
        keyed(keys, values, n).contains_key(k),
    ensures
        0 <= i < n,
        keyed(keys, values, n)[k] == values[i],
    decreases n,
{
    if keys[n - 1] == k {
        n - 1
    } else {
        lemma_keyed_value(keys, values, n - 1, k)
    }
}

/// No weight of a query is negative.
pub proof fn lemma_weights_not_negative<Id>(
    obs: Seq<ChannelInput<Id>>,
    registry: Map<Seq<char>, ChannelConfig>,
    channels: Map<Seq<char>, ChannelSummary>,
    pairs: Map<(Seq<char>, Seq<char>), PairSummary>,
    cfg: FuseConfig,
    discs: Seq<ChannelDiscrimination>,
    fused: Fused<Id>,
    key: Seq<char>,
)
    requires
        obs.len() <= u64::MAX,
        fuses_to(obs, registry, channels, pairs, cfg, discs, fused),
        forall|k: Seq<char>| #[trigger]
            registry.contains_key(k) ==> is_non_negative(registry[k].base_weight),
        fused.weights@.contains_key(key),
    ensures
        !flt(fused.weights@[key], fzero()),
{
    let n = obs.len() as int;
    let reads = reads_of(obs, registry, channels, discs, n);
    lemma_reads_finite(obs, registry, channels, discs, n);
    lemma_enumerable(reads.dom());
    let keys = in_key_order(reads.dom());
    let w = coupled(gains(reads), baselines(pairs), keys, cfg.coupling);
    let bases = bases_of(registry, keys);
    let i = lemma_keyed_value(keys, tilted(w, bases), keys.len() as int, key);
    lemma_coupled_length(gains(reads), baselines(pairs), keys, cfg.coupling);
    assert forall|h: int| 0 <= h < w.len() implies !flt(#[trigger] w[h], fzero()) by {
        crate::laws::weights::lemma_coupled_not_negative(
            gains(reads),
            baselines(pairs),
            keys,
            cfg.coupling,
            h,
        );
    }
    assert forall|h: int| 0 <= h < bases.len() implies is_non_negative(#[trigger] bases[h]) by {
        assert(keys.contains(keys[h]));
        assert(reads.dom().contains(keys[h]));
        lemma_reads_registered(obs, registry, channels, discs, n, keys[h]);
    }
    crate::laws::weights::lemma_tilted_not_negative(w, bases, i);
}

proof fn lemma_coupled_length(
    g: Map<Seq<char>, Double>,
    redundancy: Map<(Seq<char>, Seq<char>), crate::weighting::coupling::PairBaseline>,
    keys: Seq<Seq<char>>,
    cfg: crate::config::CouplingConfig,
)
    ensures
        coupled(g, redundancy, keys, cfg).len() == keys.len(),
{
}

/// The baseline of a registered channel that is present: its own, or a seed from its
/// registration.
pub proof fn lemma_seeded_at<Id>(
    obs: Seq<ChannelInput<Id>>,
    registry: Map<Seq<char>, ChannelConfig>,
    channels: Map<Seq<char>, ChannelSummary>,
    n: int,
    i: int,
)
    requires
        0 <= i < n <= obs.len(),
        registry.contains_key(obs[i].key@),
    ensures
        seeded_channels(obs, registry, channels, n).contains_key(obs[i].key@),
        seeded_channels(obs, registry, channels, n)[obs[i].key@] == if channels.contains_key(
            obs[i].key@,
        ) {
            channels[obs[i].key@]
        } else {
            seed(registry[obs[i].key@])
        },
    decreases n,
{
    let key = obs[i].key@;
    if i < n - 1 {
        lemma_seeded_at(obs, registry, channels, n - 1, i);
    } else {
        lemma_seeded_value(obs, registry, channels, n - 1, key);
    }
}

pub proof fn lemma_seeded_value<Id>(
    obs: Seq<ChannelInput<Id>>,
    registry: Map<Seq<char>, ChannelConfig>,
    channels: Map<Seq<char>, ChannelSummary>,
    n: int,
    key: Seq<char>,
)
    requires
        0 <= n <= obs.len(),
    ensures
        channels.contains_key(key) ==> seeded_channels(obs, registry, channels, n).contains_key(key),
        seeded_channels(obs, registry, channels, n).contains_key(key) ==> seeded_channels(
            obs,
            registry,
            channels,
            n,
        )[key] == if channels.contains_key(key) {
            channels[key]
        } else {
            seed(registry[key])
        },
    decreases n,
{
    if n > 0 {
        lemma_seeded_value(obs, registry, channels, n - 1, key);
    }
}

/// Channels are never compared with one another: what a query reads from a channel depends
/// on that channel's own input and baseline, whatever the other inputs are.
pub proof fn lemma_reads_do_not_mix<Id>(
    f: Fuser,
    a: Seq<ChannelInput<Id>>,
    b: Seq<ChannelInput<Id>>,
    i: int,
    j: int,
)
    requires
        0 <= i < a.len(),
        0 <= j < b.len(),
        a[i] == b[j],
    ensures
        reading_at(a, f.registry()@, f.baselines_for(a), f.settings(), i) == reading_at(
            b,
            f.registry()@,
            f.baselines_for(b),
            f.settings(),
            j,
        ),
{
    let registry = f.registry()@;
    let channels = f.held().channel_table()@;
    if registry.contains_key(a[i].key@) {
        lemma_seeded_at(a, registry, channels, a.len() as int, i);
        lemma_seeded_at(b, registry, channels, b.len() as int, j);
    }
}

} // verus!
