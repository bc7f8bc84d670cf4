//! Which registrations and settings are taken.
use crate::config::{
    is_non_negative, is_positive, is_within_unit, requirement, valid, ChannelConfig, FuseConfig,
};
use crate::double::{fone, fzero, Double};
use crate::exact::lemma_one;
use crate::fuser::{
    compatible, orientations, registered, registrable, registrable_at, repeats, seeded_directions,
    Fused, Fuser,
};
use crate::ingest::input::ChannelInput;
use crate::keys::STAT_VERSION;
use crate::laws::seeding::{facing, lemma_no_scale, lemma_orientation, lemma_scale_is_half, ordinary};
use crate::precision::{exact, lemma_exact_order};
use crate::score::{oriented, reference_scale, usable, Direction};
use crate::state::{RuffleState, FORMAT_VERSION};
use vstd::prelude::*;

verus! {

/// A number that may stand between two bounds, both met.
pub open spec fn ranges(x: Double, low: int, high: int) -> bool {
    x.finite() && low as real <= exact(x) <= high as real
}

/// A number that is above zero.
pub open spec fn exceeds_zero(x: Double) -> bool {
    x.finite() && exact(x) > (0 as real)
}

/// A number that is not below zero.
pub open spec fn reaches_zero(x: Double) -> bool {
    x.finite() && exact(x) >= (0 as real)
}

/// Settings are taken exactly where every one of them is in its range.
pub proof fn lemma_settings_in_range(cfg: FuseConfig)
    ensures
        valid(cfg) <==> {
            let d = cfg.discrimination;
            let c = cfg.coupling;
            &&& exceeds_zero(d.top_eps) && exact(d.top_eps) <= (1 as real)
            &&& d.top_m >= 1
            &&& d.min_distinct_values >= 2
            &&& reaches_zero(d.denom_floor_frac)
            &&& exceeds_zero(d.winsor_z)
            &&& exceeds_zero(d.min_count_for_z)
            &&& d.shrink_pool_size >= 1
            &&& reaches_zero(d.g_floor)
            &&& exceeds_zero(d.g_upper_bound) && exact(d.g_floor) <= exact(d.g_upper_bound)
            &&& exceeds_zero(d.g_slope)
            &&& d.g_deviation_keep.finite()
            &&& ranges(c.discount_cap, 0, 1)
            &&& ranges(c.shrink_to_identity, 0, 1)
            &&& c.min_overlap >= 2
            &&& reaches_zero(c.min_reliability)
            &&& reaches_zero(c.min_refreshes)
            &&& reaches_zero(c.stratum_stability_max_var)
            &&& reaches_zero(cfg.fusion.rrf_eta)
            &&& ranges(cfg.decay.factor, 0, 1)
        },
{
    let d = cfg.discrimination;
    let c = cfg.coupling;
    lemma_bounds(d.top_eps);
    lemma_bounds(d.denom_floor_frac);
    lemma_bounds(d.winsor_z);
    lemma_bounds(d.min_count_for_z);
    lemma_bounds(d.g_floor);
    lemma_bounds(d.g_upper_bound);
    lemma_bounds(d.g_slope);
    lemma_bounds(c.discount_cap);
    lemma_bounds(c.shrink_to_identity);
    lemma_bounds(c.min_reliability);
    lemma_bounds(c.min_refreshes);
    lemma_bounds(c.stratum_stability_max_var);
    lemma_bounds(cfg.fusion.rrf_eta);
    lemma_bounds(cfg.decay.factor);
    if d.g_floor.finite() && d.g_upper_bound.finite() {
        lemma_exact_order(d.g_floor, d.g_upper_bound);
    }
    assert(valid(cfg) ==> requirement(cfg, 0).0 && requirement(cfg, 1).0 && requirement(cfg, 2).0
        && requirement(cfg, 3).0 && requirement(cfg, 4).0 && requirement(cfg, 5).0 && requirement(
        cfg,
        6,
    ).0 && requirement(cfg, 7).0 && requirement(cfg, 8).0 && requirement(cfg, 9).0 && requirement(
        cfg,
        10,
    ).0 && requirement(cfg, 11).0 && requirement(cfg, 12).0 && requirement(cfg, 13).0
        && requirement(cfg, 14).0 && requirement(cfg, 15).0 && requirement(cfg, 16).0
        && requirement(cfg, 17).0 && requirement(cfg, 18).0);
}

/// The three ranges in exact terms.
proof fn lemma_bounds(x: Double)
    ensures
        is_positive(x) <==> exceeds_zero(x),
        is_non_negative(x) <==> reaches_zero(x),
        is_within_unit(x) <==> ranges(x, 0, 1),
        x.finite() ==> (crate::double::fle(x, fone()) <==> exact(x) <= (1 as real)),
{
    lemma_one();
    if x.finite() {
        lemma_exact_order(fzero(), x);
        lemma_exact_order(x, fone());
    }
}

/// The declared good score is better than the typical one, in the channel's own direction.
pub open spec fn declares_better(c: ChannelConfig) -> bool {
    c.good_score is Some ==> c.good_score->0.typical.finite() && c.good_score->0.good.finite()
        && facing(c.direction, c.good_score->0.good) > facing(c.direction, c.good_score->0.typical)
}

/// The distance between the two declared scores is of an ordinary size.
pub open spec fn declares_ordinarily(c: ChannelConfig) -> bool {
    c.good_score is Some ==> ordinary(
        facing(c.direction, c.good_score->0.good) - facing(c.direction, c.good_score->0.typical),
    )
}

/// Registrations are taken only where no two share a key, every declared good score is better
/// than the typical one, and no base weight is negative; and they are taken wherever that holds
/// with scores an ordinary distance apart.
pub proof fn lemma_registrations_taken(configs: Seq<ChannelConfig>, cfg: FuseConfig)
    ensures
        registrable(configs, cfg) ==> valid(cfg) && keys_differ(configs) && forall|i: int|
            0 <= i < configs.len() ==> declares_better(#[trigger] configs[i]) && reaches_zero(
                configs[i].base_weight,
            ),
        valid(cfg) && keys_differ(configs) && (forall|i: int|
            0 <= i < configs.len() ==> declares_better(#[trigger] configs[i])
                && declares_ordinarily(configs[i]) && reaches_zero(configs[i].base_weight))
            ==> registrable(configs, cfg),
{
    if registrable(configs, cfg) {
        assert forall|i: int| 0 <= i < configs.len() implies declares_better(#[trigger] configs[i])
            && reaches_zero(configs[i].base_weight) by {
            assert(registrable_at(configs, i));
            lemma_declared(configs[i]);
            lemma_bounds(configs[i].base_weight);
        }
        assert forall|i: int, j: int| 0 <= i < j < configs.len() implies (
        #[trigger] configs[i]).id.key@ != (#[trigger] configs[j]).id.key@ by {
            assert(registrable_at(configs, j));
            assert(!repeats(configs, j));
        }
    }
    if valid(cfg) && keys_differ(configs) && (forall|i: int|
        0 <= i < configs.len() ==> declares_better(#[trigger] configs[i]) && declares_ordinarily(
            configs[i],
        ) && reaches_zero(configs[i].base_weight)) {
        assert forall|i: int| 0 <= i < configs.len() implies #[trigger] registrable_at(
            configs,
            i,
        ) by {
            assert(declares_better(configs[i]));
            lemma_declared(configs[i]);
            lemma_bounds(configs[i].base_weight);
        }
    }
}

/// No two registrations share a key.
pub open spec fn keys_differ(configs: Seq<ChannelConfig>) -> bool {
    forall|i: int, j: int|
        0 <= i < j < configs.len() ==> (#[trigger] configs[i]).id.key@ != (
        #[trigger] configs[j]).id.key@
}

proof fn lemma_declared(c: ChannelConfig)
    ensures
        c.good_score is Some && usable(c.good_score->0, c.direction) ==> declares_better(c),
        c.good_score is Some && declares_better(c) && declares_ordinarily(c) ==> usable(
            c.good_score->0,
            c.direction,
        ),
{
    if c.good_score is Some {
        let g = c.good_score->0;
        if g.typical.finite() && g.good.finite() {
            let a = oriented(c.direction, g.typical);
            let b = oriented(c.direction, g.good);
            lemma_orientation(c.direction, g.typical);
            lemma_orientation(c.direction, g.good);
            let sigma = reference_scale(g, c.direction);
            if exact(b) - exact(a) <= (0 as real) {
                lemma_no_scale(a, b);
            }
            if ordinary(exact(b) - exact(a)) {
                lemma_scale_is_half(a, b);
                lemma_exact_order(fzero(), sigma);
            }
        }
    }
}

/// What is registered is what was given: every key, each with its own registration and
/// orientation, and no other.
pub proof fn lemma_registers_each(configs: Seq<ChannelConfig>, n: int)
    requires
        keys_differ(configs),
        0 <= n <= configs.len(),
    ensures
        forall|i: int|
            0 <= i < n ==> registered(configs, n).contains_key((#[trigger] configs[i]).id.key@)
                && registered(configs, n)[configs[i].id.key@] == configs[i],
        forall|i: int|
            0 <= i < n ==> orientations(configs, n).contains_key((#[trigger] configs[i]).id.key@)
                && orientations(configs, n)[configs[i].id.key@] == configs[i].direction,
        forall|k: Seq<char>| #[trigger]
            registered(configs, n).contains_key(k) ==> exists|i: int|
                0 <= i < n && (#[trigger] configs[i]).id.key@ == k,
        forall|k: Seq<char>| #[trigger]
            orientations(configs, n).contains_key(k) ==> exists|i: int|
                0 <= i < n && (#[trigger] configs[i]).id.key@ == k,
    decreases n,
{
    if n > 0 {
        lemma_registers_each(configs, n - 1);
        assert forall|k: Seq<char>| #[trigger] registered(configs, n).contains_key(k) implies exists|
            i: int,
        |
            0 <= i < n && (#[trigger] configs[i]).id.key@ == k by {
            if k == configs[n - 1].id.key@ {
                assert(configs[n - 1].id.key@ == k);
            } else {
                assert(registered(configs, n - 1).contains_key(k));
            }
        }
        assert forall|k: Seq<char>| #[trigger] orientations(configs, n).contains_key(k) implies exists|
            i: int,
        |
            0 <= i < n && (#[trigger] configs[i]).id.key@ == k by {
            if k == configs[n - 1].id.key@ {
                assert(configs[n - 1].id.key@ == k);
            } else {
                assert(orientations(configs, n - 1).contains_key(k));
            }
        }
    }
}

/// A state can be continued under the registrations that it was made for, whatever it has
/// learned since: it need only carry their orientations and tags.
pub proof fn lemma_own_state_is_taken(
    configs: Seq<ChannelConfig>,
    state: RuffleState,
    cfg: FuseConfig,
)
    requires
        keys_differ(configs),
        state.version() == FORMAT_VERSION,
        state.stats().stat_version == STAT_VERSION,
        state.stats().baseline_mode == cfg.baseline_mode,
        state.stats().directions@ == orientations(configs, configs.len() as int),
        forall|k: Seq<char>| #[trigger]
            state.channel_table()@.contains_key(k) ==> exists|i: int|
                0 <= i < configs.len() && (#[trigger] configs[i]).id.key@ == k && configs[i].id.tag@
                    == state.channel_table()@[k].tag@,
    ensures
        compatible(configs, state, cfg),
{
    lemma_registers_each(configs, configs.len() as int);
}

/// A state that was made for the other direction of a channel, or under another tag of it, or
/// with another baseline mode, is not taken.
pub proof fn lemma_foreign_state_is_refused(
    configs: Seq<ChannelConfig>,
    state: RuffleState,
    cfg: FuseConfig,
    i: int,
)
    requires
        0 <= i < configs.len(),
        ({
            let k = configs[i].id.key@;
            ||| state.stats().directions@.contains_key(k) && state.stats().directions@[k]
                != configs[i].direction
            ||| state.channel_table()@.contains_key(k) && state.channel_table()@[k].tag@
                != configs[i].id.tag@
            ||| state.stats().baseline_mode != cfg.baseline_mode
            ||| state.stats().stat_version != STAT_VERSION
            ||| state.version() != FORMAT_VERSION
        }),
    ensures
        !compatible(configs, state, cfg),
{
}

/// A query puts on record the orientation of every registered channel that it names and that is
/// not on record yet, as it was registered; what is on record stays, and nothing else is put
/// there.
pub proof fn lemma_query_records_orientations<Id>(
    before: Fuser,
    obs: Seq<ChannelInput<Id>>,
    exps: Seq<(Double, Double)>,
    after: Fuser,
    fused: Fused<Id>,
    key: Seq<char>,
)
    requires
        before.fuses(obs, exps, after, fused),
    ensures
        ({
            let old_record = before.held().stats().directions@;
            let new_record = after.held().stats().directions@;
            let named = exists|i: int| 0 <= i < obs.len() && (#[trigger] obs[i]).key@ == key;
            &&& old_record.contains_key(key) ==> new_record.contains_key(key) && new_record[key]
                == old_record[key]
            &&& !old_record.contains_key(key) && before.registry()@.contains_key(key) && named
                ==> new_record.contains_key(key) && new_record[key]
                == before.registry()@[key].direction
            &&& !old_record.contains_key(key) && !(before.registry()@.contains_key(key) && named)
                ==> !new_record.contains_key(key)
        }),
{
    lemma_recorded(
        obs,
        before.registry()@,
        before.held().stats().directions@,
        obs.len() as int,
        key,
    );
}

proof fn lemma_recorded<Id>(
    obs: Seq<ChannelInput<Id>>,
    registry: Map<Seq<char>, ChannelConfig>,
    directions: Map<Seq<char>, Direction>,
    n: int,
    key: Seq<char>,
)
    requires
        0 <= n <= obs.len(),
    ensures
        ({
            let record = seeded_directions(obs, registry, directions, n);
            let named = exists|i: int| 0 <= i < n && (#[trigger] obs[i]).key@ == key;
            &&& directions.contains_key(key) ==> record.contains_key(key) && record[key]
                == directions[key]
            &&& !directions.contains_key(key) && registry.contains_key(key) && named
                ==> record.contains_key(key) && record[key] == registry[key].direction
            &&& !directions.contains_key(key) && !(registry.contains_key(key) && named)
                ==> !record.contains_key(key)
        }),
    decreases n,
{
    if n > 0 {
        lemma_recorded(obs, registry, directions, n - 1, key);
        if exists|i: int| 0 <= i < n - 1 && (#[trigger] obs[i]).key@ == key {
            let i = choose|i: int| 0 <= i < n - 1 && (#[trigger] obs[i]).key@ == key;
            assert(0 <= i < n && obs[i].key@ == key);
        }
        if obs[n - 1].key@ == key {
            assert(0 <= n - 1 < n && obs[n - 1].key@ == key);
        }
    }
}

} // verus!
