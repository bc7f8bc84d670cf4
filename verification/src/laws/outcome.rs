//! What one call of a fuser returns and leaves behind, in terms of its inputs and its state.
use crate::config::{ChannelConfig, FuseConfig};
use crate::double::{fone, fzero, Double};

use crate::fuser::{
    baselines, bases_of, entering, enters, exponentials, exponentiated, flags_of, gains,
    in_key_order, judgments, reading_at, reads_of, seed, seeded_channels, tilted, ChannelFlag,
    Fused, Fuser,
};
use crate::ingest::input::{ChannelInput, Items};
use crate::laws::clipping::{clipped, lemma_winsorized_clips};
use crate::laws::filtering::lemma_keyed_domain;
use crate::laws::fusing::{
    lemma_enumerable, lemma_reads_finite, lemma_seeded_at, lemma_seeded_value,
};
use crate::laws::weights::lemma_each_key_has_its_weight;
use crate::ordered::text_before;
use crate::state::ChannelSummary;
use crate::summary::{decayed, pooled, MeanVar};
use crate::weighting::coupling::{coupled, PairBaseline};
use crate::weighting::discrimination::{
    discriminated, discrimination, items_reading, readable, winsorized, ChannelDiscrimination,
};
use crate::weighting::fusion::fused_ranking;
use vstd::prelude::*;

verus! {

/// The input at `i` takes part in a query: its channel is registered and no earlier input is
/// that channel's.
pub open spec fn takes_part<Id>(f: Fuser, obs: Seq<ChannelInput<Id>>, i: int) -> bool {
    &&& 0 <= i < obs.len()
    &&& f.registry()@.contains_key(obs[i].key@)
    &&& forall|j: int| 0 <= j < i ==> (#[trigger] obs[j]).key@ != obs[i].key@
}

/// The baseline that a channel is read against: its own, or the seed of its registration where
/// it has none yet.
pub open spec fn baseline_of(f: Fuser, key: Seq<char>) -> ChannelSummary {
    if f.held().channel_table()@.contains_key(key) {
        f.held().channel_table()@[key]
    } else {
        seed(f.registry()@[key])
    }
}

/// What an input's channel is flagged with: ranks alone, then a degenerate separation, then a
/// missing reference.
pub open spec fn flagged<Id>(
    items: Items<Id>,
    d: ChannelDiscrimination,
    flag: Option<ChannelFlag>,
) -> bool {
    &&& items is Ranks ==> flag == Some(ChannelFlag::RanksOnlyDefaultWeighted)
    &&& items is Scored && d.degenerate_separation ==> flag == Some(
        ChannelFlag::DegenerateSeparation,
    )
    &&& items is Scored && !d.degenerate_separation && d.reference_cold ==> flag == Some(
        ChannelFlag::NoReference,
    )
    &&& items is Scored && !d.degenerate_separation && !d.reference_cold ==> flag is None
}

/// A list holds the inputs that take part, in their order.
pub open spec fn lists_parts<Id>(
    f: Fuser,
    obs: Seq<ChannelInput<Id>>,
    list: Seq<ChannelInput<Id>>,
    places: Seq<int>,
) -> bool {
    &&& places.len() == list.len()
    &&& forall|l: int|
        0 <= l < list.len() ==> takes_part(f, obs, #[trigger] places[l]) && list[l]
            == obs[places[l]]
    &&& forall|k: int, l: int|
        #![trigger places[k], places[l]]
        0 <= k < l < places.len() ==> places[k] < places[l]
    &&& forall|i: int| #[trigger] takes_part(f, obs, i) ==> places.contains(i)
}

/// An input takes part where it enters.
proof fn lemma_takes_part<Id>(f: Fuser, obs: Seq<ChannelInput<Id>>, i: int)
    requires
        0 <= i < obs.len(),
    ensures
        takes_part(f, obs, i) <==> enters(obs, f.registry()@, f.baselines_for(obs), i),
        takes_part(f, obs, i) ==> f.baselines_for(obs)[obs[i].key@] == baseline_of(
            f,
            obs[i].key@,
        ),
{
    if f.registry()@.contains_key(obs[i].key@) {
        lemma_seeded_at(
            obs,
            f.registry()@,
            f.held().channel_table()@,
            obs.len() as int,
            i,
        );
    }
}

/// The places of the inputs that enter among the first `n`.
proof fn lemma_entering_lists<Id>(f: Fuser, obs: Seq<ChannelInput<Id>>, n: int) -> (places: Seq<
    int,
>)
    requires
        0 <= n <= obs.len(),
    ensures
        places.len() == entering(obs, f.registry()@, f.baselines_for(obs), n).len(),
        forall|l: int|
            0 <= l < places.len() ==> takes_part(f, obs, #[trigger] places[l]) && places[l] < n
                && entering(obs, f.registry()@, f.baselines_for(obs), n)[l] == obs[places[l]],
        forall|k: int, l: int|
            #![trigger places[k], places[l]]
            0 <= k < l < places.len() ==> places[k] < places[l],
        forall|i: int| #[trigger] takes_part(f, obs, i) && i < n ==> places.contains(i),
    decreases n,
{
    if n <= 0 {
        Seq::empty()
    } else {
        let before = lemma_entering_lists(f, obs, n - 1);
        lemma_takes_part(f, obs, n - 1);
        if takes_part(f, obs, n - 1) {
            let places = before.push(n - 1);
            assert forall|i: int| #[trigger] takes_part(f, obs, i) && i < n implies places.contains(
                i,
            ) by {
                if i < n - 1 {
                    assert(before.contains(i));
                    let l = choose|l: int| 0 <= l < before.len() && before[l] == i;
                    assert(places[l] == i);
                } else {
                    assert(places[before.len() as int] == i);
                }
            }
            places
        } else {
            assert forall|i: int| #[trigger] takes_part(f, obs, i) && i < n implies before.contains(
                i,
            ) by {
                assert(i != n - 1);
            }
            before
        }
    }
}

/// What has been read and flagged among the first `n` inputs.
proof fn lemma_read_and_flagged<Id>(
    f: Fuser,
    obs: Seq<ChannelInput<Id>>,
    discs: Seq<ChannelDiscrimination>,
    n: int,
    key: Seq<char>,
)
    requires
        0 <= n <= obs.len(),
    ensures
        ({
            let registry = f.registry()@;
            let channels = f.baselines_for(obs);
            let reads = reads_of(obs, registry, channels, discs, n);
            let flags = flags_of(obs, registry, channels, discs, n);
            &&& reads.contains_key(key) <==> exists|i: int|
                #[trigger] takes_part(f, obs, i) && i < n && obs[i].key@ == key
            &&& flags.contains_key(key) ==> reads.contains_key(key)
            &&& forall|i: int|
                #[trigger] takes_part(f, obs, i) && i < n && obs[i].key@ == key ==> reads[key]
                    == discs[i] && flagged(
                    obs[i].items,
                    discs[i],
                    if flags.contains_key(key) {
                        Some(flags[key])
                    } else {
                        None
                    },
                )
        }),
    decreases n,
{
    let registry = f.registry()@;
    let channels = f.baselines_for(obs);
    if n > 0 {
        lemma_read_and_flagged(f, obs, discs, n - 1, key);
        lemma_takes_part(f, obs, n - 1);
        let reads = reads_of(obs, registry, channels, discs, n);
        let before = reads_of(obs, registry, channels, discs, n - 1);
        let i0 = n - 1;
        if takes_part(f, obs, n - 1) && obs[n - 1].key@ == key {
            assert forall|i: int|
                #[trigger] takes_part(f, obs, i) && i < n && obs[i].key@ == key implies i == n
                - 1 by {
                if i < n - 1 {
                    assert(obs[i].key@ != obs[n - 1].key@);
                }
            }
            if before.contains_key(key) {
                let i = choose|i: int|
                    #[trigger] takes_part(f, obs, i) && i < n - 1 && obs[i].key@ == key;
                assert(obs[i].key@ != obs[n - 1].key@);
            }
        } else {
            if before.contains_key(key) {
                let i = choose|i: int|
                    #[trigger] takes_part(f, obs, i) && i < n - 1 && obs[i].key@ == key;
                assert(takes_part(f, obs, i) && i < n);
            }
            assert forall|i: int|
                #[trigger] takes_part(f, obs, i) && i < n && obs[i].key@ == key implies i < n
                - 1 by {}
        }
    }
}

/// What a query is read as: every input that takes part, and no other, is discriminated against
/// its own channel's baseline, and flagged by what that shows; the ranking fuses exactly the
/// inputs that take part, in their order, by the weights that are reported, of which there is
/// one for each of them.
pub proof fn lemma_query_reads_its_inputs<Id, E: Fn(Double) -> Double>(
    f: Fuser,
    obs: Seq<ChannelInput<Id>>,
    exp: E,
    exps: Seq<(Double, Double)>,
    after: Fuser,
    fused: Fused<Id>,
)
    requires
        exponentials(obs, f.registry()@, f.baselines_for(obs), f.settings(), exp, exps),
        f.fuses(obs, exps, after, fused),
    ensures
        forall|key: Seq<char>| #[trigger]
            fused.discrimination@.contains_key(key) <==> exists|i: int|
                #[trigger] takes_part(f, obs, i) && obs[i].key@ == key,
        forall|key: Seq<char>| #[trigger]
            fused.weights@.contains_key(key) <==> fused.discrimination@.contains_key(key),
        forall|key: Seq<char>| #[trigger]
            fused.flags@.contains_key(key) ==> fused.discrimination@.contains_key(key),
        forall|i: int| #[trigger]
            takes_part(f, obs, i) ==> {
                let key = obs[i].key@;
                let base = baseline_of(f, key);
                let d = fused.discrimination@[key];
                &&& discriminated(
                    obs[i].items,
                    base.separation,
                    base.reference,
                    f.settings().discrimination,
                    exp,
                    d,
                )
                &&& flagged(
                    obs[i].items,
                    d,
                    if fused.flags@.contains_key(key) {
                        Some(fused.flags@[key])
                    } else {
                        None
                    },
                )
            },
        exists|list: Seq<ChannelInput<Id>>, places: Seq<int>|
            #[trigger] lists_parts(f, obs, list, places) && fused.ranking@ == fused_ranking(
                list,
                fused.weights@,
                f.settings().fusion.rrf_eta,
            ),
{
    let n = obs.len() as int;
    let registry = f.registry()@;
    let channels = f.baselines_for(obs);
    let cfg = f.settings();
    let discs = judgments(obs, registry, channels, cfg, exps);
    let reads = reads_of(obs, registry, channels, discs, n);
    assert forall|key: Seq<char>| #[trigger] fused.discrimination@.contains_key(key) <==> exists|
        i: int,
    |
        #[trigger] takes_part(f, obs, i) && obs[i].key@ == key by {
        lemma_read_and_flagged(f, obs, discs, n, key);
        if exists|i: int| #[trigger] takes_part(f, obs, i) && obs[i].key@ == key {
            let i = choose|i: int| #[trigger] takes_part(f, obs, i) && obs[i].key@ == key;
            assert(takes_part(f, obs, i) && i < n);
        }
    }
    assert forall|key: Seq<char>| #[trigger]
        fused.flags@.contains_key(key) implies fused.discrimination@.contains_key(key) by {
        lemma_read_and_flagged(f, obs, discs, n, key);
    }
    // The weights.
    lemma_reads_finite(obs, registry, channels, discs, n);
    lemma_enumerable(reads.dom());
    let keys = in_key_order(reads.dom());
    assert forall|key: Seq<char>| #[trigger]
        fused.weights@.contains_key(key) <==> fused.discrimination@.contains_key(key) by {
        lemma_keyed_domain(
            keys,
            tilted(
                coupled(
                    gains(reads),
                    baselines(f.held().pair_table()@),
                    keys,
                    cfg.coupling,
                ),
                bases_of(registry, keys),
            ),
            keys.len() as int,
            key,
        );
        assert(reads.dom().contains(key) <==> keys.contains(key));
    }
    // The reads.
    assert forall|i: int| #[trigger] takes_part(f, obs, i) implies {
        let key = obs[i].key@;
        let base = baseline_of(f, key);
        let d = fused.discrimination@[key];
        &&& discriminated(
            obs[i].items,
            base.separation,
            base.reference,
            cfg.discrimination,
            exp,
            d,
        )
        &&& flagged(
            obs[i].items,
            d,
            if fused.flags@.contains_key(key) {
                Some(fused.flags@[key])
            } else {
                None
            },
        )
    } by {
        let key = obs[i].key@;
        lemma_read_and_flagged(f, obs, discs, n, key);
        lemma_takes_part(f, obs, i);
        let r = reading_at(obs, registry, channels, cfg, i);
        assert(exponentiated(r, cfg, exp, exps[i]));
        let base = baseline_of(f, key);
        if readable(obs[i].items) {
            let q = items_reading(
                obs[i].items,
                base.separation,
                base.reference,
                cfg.discrimination,
            );
            assert(r == Some(q));
            assert(discs[i] == discrimination(q, cfg.discrimination, exps[i].0, exps[i].1));
        }
    }
    // The ranking.
    let places = lemma_entering_lists(f, obs, n);
    let list = entering(obs, registry, channels, n);
    assert(lists_parts(f, obs, list, places));
}

/// What a query's weights are: one for each channel that takes part, in the order of the keys;
/// the discounted weights of what was read, tilted by the base weights of the registrations.
pub proof fn lemma_query_weights_are_discounted_and_tilted<Id>(
    f: Fuser,
    obs: Seq<ChannelInput<Id>>,
    exps: Seq<(Double, Double)>,
    after: Fuser,
    fused: Fused<Id>,
)
    requires
        f.fuses(obs, exps, after, fused),
    ensures
        exists|keys: Seq<Seq<char>>| #[trigger] weighs_all(f, fused, keys),
{
    let n = obs.len() as int;
    let registry = f.registry()@;
    let channels = f.baselines_for(obs);
    let cfg = f.settings();
    let discs = judgments(obs, registry, channels, cfg, exps);
    let reads = reads_of(obs, registry, channels, discs, n);
    lemma_reads_finite(obs, registry, channels, discs, n);
    lemma_enumerable(reads.dom());
    let keys = in_key_order(reads.dom());
    let pairs = f.held().pair_table()@;
    let g = Map::new(
        |k: Seq<char>| fused.discrimination@.contains_key(k),
        |k: Seq<char>| fused.discrimination@[k].g,
    );
    let r = Map::new(
        |k: (Seq<char>, Seq<char>)| pairs.contains_key(k),
        |k: (Seq<char>, Seq<char>)|
            PairBaseline { redundancy: pairs[k].redundancy, refreshes: pairs[k].refreshes },
    );
    assert(g =~= gains(reads));
    assert(r =~= baselines(pairs));
    assert forall|i: int, j: int| 0 <= i < j < keys.len() implies keys[i] != keys[j] by {
        assert(text_before(keys[i], keys[j]));
        crate::ordered::lemma_text_order(keys[i], keys[i], keys[i]);
    }
    assert(keys.no_duplicates());
    let b = Seq::new(keys.len(), |i: int| registry[keys[i]].base_weight);
    assert(b =~= bases_of(registry, keys));
    let w = tilted(coupled(g, r, keys, cfg.coupling), b);
    assert forall|i: int| 0 <= i < keys.len() implies fused.weights@.contains_key(
        #[trigger] keys[i],
    ) && fused.weights@[keys[i]] == w[i] by {
        lemma_each_key_has_its_weight(keys, w, keys.len() as int, i);
    }
    assert forall|k: Seq<char>| #[trigger]
        fused.discrimination@.contains_key(k) <==> keys.contains(k) by {
        assert(reads.dom().contains(k) <==> keys.contains(k));
    }
    assert(weighs_all(f, fused, keys));
}

/// The weights of a query are those of the channels with the given keys.
pub open spec fn weighs_all<Id>(f: Fuser, fused: Fused<Id>, keys: Seq<Seq<char>>) -> bool {
    let pairs = f.held().pair_table()@;
    let g = Map::new(
        |k: Seq<char>| fused.discrimination@.contains_key(k),
        |k: Seq<char>| fused.discrimination@[k].g,
    );
    let r = Map::new(
        |k: (Seq<char>, Seq<char>)| pairs.contains_key(k),
        |k: (Seq<char>, Seq<char>)|
            PairBaseline { redundancy: pairs[k].redundancy, refreshes: pairs[k].refreshes },
    );
    let b = Seq::new(keys.len(), |i: int| f.registry()@[keys[i]].base_weight);
    let w = tilted(coupled(g, r, keys, f.settings().coupling), b);
    &&& keys.no_duplicates()
    &&& forall|k: Seq<char>| #[trigger]
        fused.discrimination@.contains_key(k) <==> keys.contains(k)
    &&& forall|i: int|
        0 <= i < keys.len() ==> fused.weights@.contains_key(#[trigger] keys[i])
            && fused.weights@[keys[i]] == w[i]
}

/// A summary as a query finds it: decayed where decay is on.
pub open spec fn as_found(s: MeanVar, cfg: FuseConfig) -> MeanVar {
    if cfg.decay.enabled {
        decayed(s, cfg.decay.factor)
    } else {
        s
    }
}

/// A summary with one observation merged in.
pub open spec fn with_one(s: MeanVar, x: Double) -> MeanVar {
    pooled(s, MeanVar { count: fone(), mean: x, m2: fzero() })
}

/// What a channel's baselines are after a query has read it: decayed where decay is on, each
/// with one observation merged in: the separation read, held to its own band, and the average
/// of the best scores, where there is one.
pub open spec fn learns(
    before: ChannelSummary,
    d: ChannelDiscrimination,
    cfg: FuseConfig,
    after: ChannelSummary,
) -> bool {
    let separation = as_found(before.separation, cfg);
    let reference = as_found(before.reference, cfg);
    &&& after.tag == before.tag
    &&& d.raw_separation is None ==> after.separation == separation
    &&& d.raw_separation is Some && d.raw_separation->0.finite() ==> exists|w: Double| #[trigger]
        clipped(d.raw_separation->0, separation, cfg.discrimination, w) && (w.finite()
            ==> after.separation == with_one(separation, w))
    &&& d.top_m_average is None ==> after.reference == reference
    &&& d.top_m_average is Some && d.top_m_average->0.finite() ==> after.reference == with_one(
        reference,
        d.top_m_average->0,
    )
}

/// What a query leaves behind: every channel that takes part has learned from its read, every
/// other baseline, every pair and every registration stays as it is, and no channel appears
/// that took no part.
pub proof fn lemma_query_learns_its_reads<Id>(
    f: Fuser,
    obs: Seq<ChannelInput<Id>>,
    exps: Seq<(Double, Double)>,
    after: Fuser,
    fused: Fused<Id>,
)
    requires
        f.fuses(obs, exps, after, fused),
    ensures
        after.registry() == f.registry(),
        after.settings() == f.settings(),
        after.held().pair_table() == f.held().pair_table(),
        forall|k: Seq<char>| #[trigger]
            after.held().channel_table()@.contains_key(k)
                <==> f.held().channel_table()@.contains_key(k)
                || fused.discrimination@.contains_key(k),
        forall|k: Seq<char>| #[trigger]
            fused.discrimination@.contains_key(k) ==> learns(
                baseline_of(f, k),
                fused.discrimination@[k],
                f.settings(),
                after.held().channel_table()@[k],
            ),
        forall|k: Seq<char>|
            f.held().channel_table()@.contains_key(k) && !fused.discrimination@.contains_key(k)
                ==> #[trigger] after.held().channel_table()@[k] == f.held().channel_table()@[k],
{
    let n = obs.len() as int;
    let registry = f.registry()@;
    let own = f.held().channel_table()@;
    let channels = f.baselines_for(obs);
    let cfg = f.settings();
    let discs = judgments(obs, registry, channels, cfg, exps);
    let reads = reads_of(obs, registry, channels, discs, n);
    assert forall|k: Seq<char>| #[trigger] channels.contains_key(k) <==> own.contains_key(k)
        || reads.contains_key(k) by {
        lemma_seeded_value(obs, registry, own, n, k);
        lemma_read_and_flagged(f, obs, discs, n, k);
        if reads.contains_key(k) {
            let i = choose|i: int| #[trigger] takes_part(f, obs, i) && i < n && obs[i].key@ == k;
            lemma_seeded_at(obs, registry, own, n, i);
        }
        if channels.contains_key(k) && !own.contains_key(k) {
            let i = lemma_seeded_source(obs, registry, own, n, k);
            assert(takes_part(f, obs, i) && i < n && obs[i].key@ == k);
        }
    }
    assert forall|k: Seq<char>| #[trigger]
        after.held().channel_table()@.contains_key(k) <==> own.contains_key(k)
            || fused.discrimination@.contains_key(k) by {
        assert(channels.contains_key(k) <==> own.contains_key(k) || reads.contains_key(k));
    }
    assert forall|k: Seq<char>| #[trigger]
        fused.discrimination@.contains_key(k) implies learns(
        baseline_of(f, k),
        fused.discrimination@[k],
        cfg,
        after.held().channel_table()@[k],
    ) by {
        lemma_read_and_flagged(f, obs, discs, n, k);
        let i = choose|i: int| #[trigger] takes_part(f, obs, i) && i < n && obs[i].key@ == k;
        lemma_takes_part(f, obs, i);
        assert(channels.contains_key(k));
        let base = baseline_of(f, k);
        let d = reads[k];
        let found = as_found(base.separation, cfg);
        if d.raw_separation is Some {
            let w = winsorized(d.raw_separation->0, found, cfg.discrimination);
            lemma_winsorized_clips(d.raw_separation->0, found, cfg.discrimination);
            assert(clipped(d.raw_separation->0, found, cfg.discrimination, w));
        }
    }
    assert forall|k: Seq<char>|
        own.contains_key(k) && !fused.discrimination@.contains_key(k) implies #[trigger] after.held().channel_table()@[k]
        == own[k] by {
        lemma_seeded_value(obs, registry, own, n, k);
        assert(after.held().channel_table()@.contains_key(k));
    }
}

/// A channel that was seeded was named first by some registered input.
proof fn lemma_seeded_source<Id>(
    obs: Seq<ChannelInput<Id>>,
    registry: Map<Seq<char>, ChannelConfig>,
    channels: Map<Seq<char>, ChannelSummary>,
    n: int,
    k: Seq<char>,
) -> (i: int)
    requires
        0 <= n <= obs.len(),
        seeded_channels(obs, registry, channels, n).contains_key(k),
        !channels.contains_key(k),
    ensures
        0 <= i < n,
        obs[i].key@ == k,
        registry.contains_key(k),
        forall|j: int| 0 <= j < i ==> (#[trigger] obs[j]).key@ != k,
    decreases n,
{
    if n <= 0 {
        0
    } else {
        let before = seeded_channels(obs, registry, channels, n - 1);
        if before.contains_key(k) {
            lemma_seeded_source(obs, registry, channels, n - 1, k)
        } else {
            assert forall|j: int| 0 <= j < n - 1 implies (#[trigger] obs[j]).key@ != k by {
                if obs[j].key@ == k {
                    lemma_seeded_at(obs, registry, channels, n - 1, j);
                }
            }
            n - 1
        }
    }
}

} // verus!
