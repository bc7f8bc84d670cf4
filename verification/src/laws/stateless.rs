//! Fusing without a trace: what it returns is what a fuser with the same state returns.
use crate::config::{ChannelConfig, FuseConfig};
use crate::double::Double;
use crate::fuser::{
    borrowed_channels, entering, enters, flags_of, fuses_statelessly, judgments, reading_at,
    reads_of, registered, seeded_channels, stateless_baselines, top_lists, Fused, Fuser,
};
use crate::ingest::input::ChannelInput;
use crate::state::{ChannelSummary, RuffleState};
use crate::weighting::discrimination::ChannelDiscrimination;
use vstd::prelude::*;

verus! {

/// Two sets of baselines agree on every registered channel of a query.
spec fn agree<Id>(
    obs: Seq<ChannelInput<Id>>,
    registry: Map<Seq<char>, ChannelConfig>,
    a: Map<Seq<char>, ChannelSummary>,
    b: Map<Seq<char>, ChannelSummary>,
) -> bool {
    forall|i: int|
        0 <= i < obs.len() && registry.contains_key((#[trigger] obs[i]).key@) ==> a.contains_key(
            obs[i].key@,
        ) && b.contains_key(obs[i].key@) && a[obs[i].key@] == b[obs[i].key@]
}

/// The baselines that a query borrows, and those that it would seed, for one channel.
proof fn lemma_borrowed<Id>(
    obs: Seq<ChannelInput<Id>>,
    registry: Map<Seq<char>, ChannelConfig>,
    channels: Map<Seq<char>, ChannelSummary>,
    n: int,
    k: Seq<char>,
)
    requires
        0 <= n <= obs.len(),
        registry.contains_key(k),
    ensures
        ({
            let own = if channels.contains_key(k) {
                channels[k]
            } else {
                crate::fuser::seed(registry[k])
            };
            let named = exists|i: int| 0 <= i < n && (#[trigger] obs[i]).key@ == k;
            let a = borrowed_channels(obs, registry, channels, n);
            let b = seeded_channels(obs, registry, channels, n);
            &&& a.contains_key(k) ==> a[k] == own
            &&& b.contains_key(k) ==> b[k] == own
            &&& channels.contains_key(k) ==> b.contains_key(k)
            &&& named ==> a.contains_key(k) && b.contains_key(k)
        }),
    decreases n,
{
    if n > 0 {
        lemma_borrowed(obs, registry, channels, n - 1, k);
        if exists|i: int| 0 <= i < n && (#[trigger] obs[i]).key@ == k {
            let i = choose|i: int| 0 <= i < n && (#[trigger] obs[i]).key@ == k;
            assert(i == n - 1 || 0 <= i < n - 1);
        }
    }
}

proof fn lemma_baselines_agree<Id>(
    obs: Seq<ChannelInput<Id>>,
    registry: Map<Seq<char>, ChannelConfig>,
    channels: Map<Seq<char>, ChannelSummary>,
)
    ensures
        agree(
            obs,
            registry,
            borrowed_channels(obs, registry, channels, obs.len() as int),
            seeded_channels(obs, registry, channels, obs.len() as int),
        ),
{
    let n = obs.len() as int;
    let a = borrowed_channels(obs, registry, channels, n);
    let b = seeded_channels(obs, registry, channels, n);
    assert forall|i: int|
        0 <= i < obs.len() && registry.contains_key((#[trigger] obs[i]).key@) implies a.contains_key(
        obs[i].key@,
    ) && b.contains_key(obs[i].key@) && a[obs[i].key@] == b[obs[i].key@] by {
        lemma_borrowed(obs, registry, channels, n, obs[i].key@);
    }
}

/// What a query reads depends on the baselines of its registered channels alone.
proof fn lemma_same_reads<Id>(
    obs: Seq<ChannelInput<Id>>,
    registry: Map<Seq<char>, ChannelConfig>,
    a: Map<Seq<char>, ChannelSummary>,
    b: Map<Seq<char>, ChannelSummary>,
    cfg: FuseConfig,
    discs: Seq<ChannelDiscrimination>,
    n: int,
)
    requires
        agree(obs, registry, a, b),
        0 <= n <= obs.len(),
    ensures
        entering(obs, registry, a, n) == entering(obs, registry, b, n),
        reads_of(obs, registry, a, discs, n) == reads_of(obs, registry, b, discs, n),
        flags_of(obs, registry, a, discs, n) == flags_of(obs, registry, b, discs, n),
        top_lists(obs, registry, a, cfg.discrimination, discs, n) == top_lists(
            obs,
            registry,
            b,
            cfg.discrimination,
            discs,
            n,
        ),
    decreases n,
{
    if n > 0 {
        lemma_same_reads(obs, registry, a, b, cfg, discs, n - 1);
        assert(obs[n - 1] == obs[n - 1]);
        assert(enters(obs, registry, a, n - 1) == enters(obs, registry, b, n - 1));
    }
}

/// Fusing a query without a trace, against a state, returns what a fuser with these
/// registrations and that state returns for it: the same ranking, weights, flags, reads and
/// diagnostics.
pub proof fn lemma_stateless_is_fuse<Id>(
    f: Fuser,
    obs: Seq<ChannelInput<Id>>,
    configs: Seq<ChannelConfig>,
    prior: RuffleState,
    exps: Seq<(Double, Double)>,
    after: Fuser,
    fused: Fused<Id>,
    traceless: Fused<Id>,
)
    requires
        f.registry()@ == registered(configs, configs.len() as int),
        f.held().channel_table()@ == prior.channel_table()@,
        f.held().pair_table()@ == prior.pair_table()@,
        f.fuses(obs, exps, after, fused),
        fuses_statelessly(obs, configs, prior, f.settings(), exps, traceless),
    ensures
        traceless.ranking@ == fused.ranking@,
        traceless.weights@ == fused.weights@,
        traceless.flags@ == fused.flags@,
        traceless.discrimination@ == fused.discrimination@,
        traceless.confidence == fused.confidence,
        traceless.conflict == fused.conflict,
{
    let registry = f.registry()@;
    let cfg = f.settings();
    let n = obs.len() as int;
    let a = stateless_baselines(obs, configs, prior);
    let b = f.baselines_for(obs);
    lemma_baselines_agree(obs, registry, prior.channel_table()@);
    let x = judgments(obs, registry, a, cfg, exps);
    let y = judgments(obs, registry, b, cfg, exps);
    assert forall|i: int| 0 <= i < n implies #[trigger] x[i] == y[i] by {
        assert(obs[i] == obs[i]);
        assert(reading_at(obs, registry, a, cfg, i) == reading_at(obs, registry, b, cfg, i));
    }
    assert(x =~= y);
    lemma_same_reads(obs, registry, a, b, cfg, x, n);
}

} // verus!
