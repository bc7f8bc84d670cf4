//! Fusing sees only the inputs that enter.
use crate::config::{ChannelConfig, DiscriminationConfig, FuseConfig};
use crate::double::Double;
use crate::fuser::{
    entering, enters, flags_of, fuses_to, in_key_order, judgments, query_weights, reading_at,
    reads_of, top_lists, Fused,
};
use crate::ingest::input::ChannelInput;
use crate::laws::fusing::lemma_enumerable;
use crate::state::{ChannelSummary, PairSummary};
use crate::weighting::coupling::keyed;
use crate::weighting::discrimination::ChannelDiscrimination;
use crate::weighting::fusion::fused_ranking;
use vstd::prelude::*;

verus! {

/// What stands beside the inputs among the first `n` that enter the fusion.
pub open spec fn kept<Id, T>(
    obs: Seq<ChannelInput<Id>>,
    registry: Map<Seq<char>, ChannelConfig>,
    channels: Map<Seq<char>, ChannelSummary>,
    values: Seq<T>,
    n: int,
) -> Seq<T>
    decreases n,
{
    if n <= 0 {
        Seq::empty()
    } else if enters(obs, registry, channels, n - 1) {
        kept(obs, registry, channels, values, n - 1).push(values[n - 1])
    } else {
        kept(obs, registry, channels, values, n - 1)
    }
}

/// Inputs that begin alike are read alike as far as that goes.
proof fn lemma_same_start<Id>(
    a: Seq<ChannelInput<Id>>,
    b: Seq<ChannelInput<Id>>,
    registry: Map<Seq<char>, ChannelConfig>,
    channels: Map<Seq<char>, ChannelSummary>,
    cfg: DiscriminationConfig,
    x: Seq<ChannelDiscrimination>,
    y: Seq<ChannelDiscrimination>,
    n: int,
)
    requires
        0 <= n,
        forall|i: int| 0 <= i < n ==> #[trigger] a[i] == b[i],
        forall|i: int| 0 <= i < n ==> #[trigger] x[i] == y[i],
    ensures
        entering(a, registry, channels, n) == entering(b, registry, channels, n),
        reads_of(a, registry, channels, x, n) == reads_of(b, registry, channels, y, n),
        flags_of(a, registry, channels, x, n) == flags_of(b, registry, channels, y, n),
        top_lists(a, registry, channels, cfg, x, n) == top_lists(b, registry, channels, cfg, y, n),
    decreases n,
{
    if n > 0 {
        lemma_same_start(a, b, registry, channels, cfg, x, y, n - 1);
        assert(a[n - 1] == b[n - 1]);
        assert(x[n - 1] == y[n - 1]);
        assert(enters(a, registry, channels, n - 1) == enters(b, registry, channels, n - 1)) by {
            assert forall|j: int| 0 <= j < n - 1 implies (#[trigger] a[j]).key@ == b[j].key@ by {
                assert(a[j] == b[j]);
            }
            if enters(a, registry, channels, n - 1) {
                assert forall|j: int| 0 <= j < n - 1 implies (#[trigger] b[j]).key@ != b[n
                    - 1].key@ by {
                    assert(a[j].key@ != a[n - 1].key@);
                }
            }
            if enters(b, registry, channels, n - 1) {
                assert forall|j: int| 0 <= j < n - 1 implies (#[trigger] a[j]).key@ != a[n
                    - 1].key@ by {
                    assert(b[j].key@ != b[n - 1].key@);
                }
            }
        }
    }
}

/// The inputs that enter come from the list, and the values beside them with them.
proof fn lemma_kept_source<Id, T>(
    obs: Seq<ChannelInput<Id>>,
    registry: Map<Seq<char>, ChannelConfig>,
    channels: Map<Seq<char>, ChannelSummary>,
    values: Seq<T>,
    n: int,
    h: int,
) -> (d: int)
    requires
        0 <= n <= obs.len(),
        0 <= h < entering(obs, registry, channels, n).len(),
    ensures
        0 <= d < n,
        enters(obs, registry, channels, d),
        entering(obs, registry, channels, n)[h] == obs[d],
        kept(obs, registry, channels, values, n).len() == entering(
            obs,
            registry,
            channels,
            n,
        ).len(),
        kept(obs, registry, channels, values, n)[h] == values[d],
    decreases n,
{
    lemma_kept_length(obs, registry, channels, values, n);
    lemma_kept_length(obs, registry, channels, values, n - 1);
    if enters(obs, registry, channels, n - 1) && h == entering(
        obs,
        registry,
        channels,
        n - 1,
    ).len() {
        n - 1
    } else {
        lemma_kept_source(obs, registry, channels, values, n - 1, h)
    }
}

proof fn lemma_kept_length<Id, T>(
    obs: Seq<ChannelInput<Id>>,
    registry: Map<Seq<char>, ChannelConfig>,
    channels: Map<Seq<char>, ChannelSummary>,
    values: Seq<T>,
    n: int,
)
    ensures
        kept(obs, registry, channels, values, n).len() == entering(
            obs,
            registry,
            channels,
            n,
        ).len(),
    decreases n,
{
    if n > 0 {
        lemma_kept_length(obs, registry, channels, values, n - 1);
    }
}

/// Reading the inputs that enter is reading all of them.
proof fn lemma_filtered<Id>(
    obs: Seq<ChannelInput<Id>>,
    registry: Map<Seq<char>, ChannelConfig>,
    channels: Map<Seq<char>, ChannelSummary>,
    cfg: DiscriminationConfig,
    discs: Seq<ChannelDiscrimination>,
    n: int,
)
    requires
        0 <= n <= obs.len(),
    ensures
        ({
            let few = entering(obs, registry, channels, n);
            let read = kept(obs, registry, channels, discs, n);
            let m = few.len() as int;
            &&& entering(few, registry, channels, m) == few
            &&& reads_of(few, registry, channels, read, m) == reads_of(
                obs,
                registry,
                channels,
                discs,
                n,
            )
            &&& flags_of(few, registry, channels, read, m) == flags_of(
                obs,
                registry,
                channels,
                discs,
                n,
            )
            &&& top_lists(few, registry, channels, cfg, read, m) == top_lists(
                obs,
                registry,
                channels,
                cfg,
                discs,
                n,
            )
        }),
    decreases n,
{
    if n > 0 {
        lemma_filtered(obs, registry, channels, cfg, discs, n - 1);
        lemma_kept_length(obs, registry, channels, discs, n - 1);
        if enters(obs, registry, channels, n - 1) {
            let before = entering(obs, registry, channels, n - 1);
            let read = kept(obs, registry, channels, discs, n - 1);
            let few = before.push(obs[n - 1]);
            let more = read.push(discs[n - 1]);
            let m = before.len() as int;
            lemma_same_start(before, few, registry, channels, cfg, read, more, m);
            assert(enters(few, registry, channels, m)) by {
                assert forall|j: int| 0 <= j < m implies (#[trigger] few[j]).key@
                    != few[m].key@ by {
                    let d = lemma_kept_source(obs, registry, channels, discs, n - 1, j);
                    assert(few[j] == obs[d]);
                }
            }
            assert(more[m] == discs[n - 1]);
            assert(few[m] == obs[n - 1]);
        }
    }
}

/// The reads are those of the inputs that enter, one for each.
proof fn lemma_reads_members<Id>(
    obs: Seq<ChannelInput<Id>>,
    registry: Map<Seq<char>, ChannelConfig>,
    channels: Map<Seq<char>, ChannelSummary>,
    discs: Seq<ChannelDiscrimination>,
    n: int,
    key: Seq<char>,
)
    requires
        0 <= n <= obs.len(),
    ensures
        reads_of(obs, registry, channels, discs, n).dom().finite(),
        reads_of(obs, registry, channels, discs, n).contains_key(key) <==> exists|h: int|
            0 <= h < entering(obs, registry, channels, n).len() && (#[trigger] entering(
                obs,
                registry,
                channels,
                n,
            )[h]).key@ == key,
    decreases n,
{
    if n > 0 {
        lemma_reads_members(obs, registry, channels, discs, n - 1, key);
        let before = entering(obs, registry, channels, n - 1);
        let few = entering(obs, registry, channels, n);
        if exists|h: int| 0 <= h < before.len() && (#[trigger] before[h]).key@ == key {
            let h = choose|h: int| 0 <= h < before.len() && (#[trigger] before[h]).key@ == key;
            assert(few[h] == before[h]);
        }
        if exists|h: int| 0 <= h < few.len() && (#[trigger] few[h]).key@ == key {
            let h = choose|h: int| 0 <= h < few.len() && (#[trigger] few[h]).key@ == key;
            if h < before.len() {
                assert(few[h] == before[h]);
            }
        }
        if enters(obs, registry, channels, n - 1) && obs[n - 1].key@ == key {
            assert(few[before.len() as int].key@ == key);
        }
    }
}

/// The keys of a keyed list of values are the listed ones.
pub proof fn lemma_keyed_domain(keys: Seq<Seq<char>>, values: Seq<Double>, n: int, key: Seq<char>)
    requires
        0 <= n <= keys.len(),
    ensures
        keyed(keys, values, n).contains_key(key) <==> exists|i: int|
            0 <= i < n && #[trigger] keys[i] == key,
    decreases n,
{
    if n > 0 {
        lemma_keyed_domain(keys, values, n - 1, key);
    }
}

/// Fusing a list is fusing what is left of it, in order, without the inputs that are not
/// registered, those that have no baseline, and every input after the first of its key: the
/// outcome is the same, a weight and a read are given to exactly the channels that are left,
/// and the ranking is that of their inputs.
pub proof fn lemma_fusing_filters<Id>(
    obs: Seq<ChannelInput<Id>>,
    registry: Map<Seq<char>, ChannelConfig>,
    channels: Map<Seq<char>, ChannelSummary>,
    pairs: Map<(Seq<char>, Seq<char>), PairSummary>,
    cfg: FuseConfig,
    exps: Seq<(Double, Double)>,
    fused: Fused<Id>,
)
    requires
        exps.len() == obs.len(),
    ensures
        ({
            let n = obs.len() as int;
            let few = entering(obs, registry, channels, n);
            &&& fuses_to(
                obs,
                registry,
                channels,
                pairs,
                cfg,
                judgments(obs, registry, channels, cfg, exps),
                fused,
            ) <==> fuses_to(
                few,
                registry,
                channels,
                pairs,
                cfg,
                judgments(few, registry, channels, cfg, kept(obs, registry, channels, exps, n)),
                fused,
            )
            &&& fuses_to(
                obs,
                registry,
                channels,
                pairs,
                cfg,
                judgments(obs, registry, channels, cfg, exps),
                fused,
            ) ==> {
                &&& fused.ranking@ == fused_ranking(few, fused.weights@, cfg.fusion.rrf_eta)
                &&& forall|key: Seq<char>| #[trigger]
                    fused.discrimination@.contains_key(key) <==> (exists|h: int|
                        0 <= h < few.len() && (#[trigger] few[h]).key@ == key)
                &&& forall|key: Seq<char>| #[trigger]
                    fused.weights@.contains_key(key) <==> (exists|h: int|
                        0 <= h < few.len() && (#[trigger] few[h]).key@ == key)
            }
        }),
{
    let n = obs.len() as int;
    let few = entering(obs, registry, channels, n);
    let discs = judgments(obs, registry, channels, cfg, exps);
    let left = kept(obs, registry, channels, exps, n);
    let read = kept(obs, registry, channels, discs, n);
    let others = judgments(few, registry, channels, cfg, left);
    lemma_kept_length(obs, registry, channels, exps, n);
    lemma_kept_length(obs, registry, channels, discs, n);
    assert forall|h: int| 0 <= h < few.len() implies #[trigger] others[h] == read[h] by {
        let d = lemma_kept_source(obs, registry, channels, exps, n, h);
        let e = lemma_kept_source(obs, registry, channels, discs, n, h);
        assert(d == e) by {
            assert(few[h] == obs[d] && few[h] == obs[e]);
            if d < e {
                assert(obs[d].key@ != obs[e].key@);
            } else if e < d {
                assert(obs[e].key@ != obs[d].key@);
            }
        }
        assert(reading_at(few, registry, channels, cfg, h) == reading_at(
            obs,
            registry,
            channels,
            cfg,
            d,
        ));
    }
    assert(others =~= read);
    lemma_filtered(obs, registry, channels, cfg.discrimination, discs, n);
    let reads = reads_of(obs, registry, channels, discs, n);
    let keys = in_key_order(reads.dom());
    lemma_reads_members(obs, registry, channels, discs, n, Seq::empty());
    lemma_enumerable(reads.dom());
    assert forall|key: Seq<char>| #[trigger] reads.contains_key(key) <==> (exists|h: int|
        0 <= h < few.len() && (#[trigger] few[h]).key@ == key) by {
        lemma_reads_members(obs, registry, channels, discs, n, key);
    }
    let weights = query_weights(reads, registry, pairs, cfg);
    assert forall|key: Seq<char>| #[trigger] weights.contains_key(key) <==> reads.contains_key(
        key,
    ) by {
        lemma_keyed_domain(
            keys,
            crate::fuser::tilted(
                crate::weighting::coupling::coupled(
                    crate::fuser::gains(reads),
                    crate::fuser::baselines(pairs),
                    keys,
                    cfg.coupling,
                ),
                crate::fuser::bases_of(registry, keys),
            ),
            keys.len() as int,
            key,
        );
        assert(reads.dom().contains(key) <==> keys.contains(key));
    }
}

} // verus!
