//! Fusing inputs whose ids are texts.
//!
//! Each distinct text is given a number, the numbered inputs are fused, and the ranking is
//! named again. Two ids are the same item where their texts are the same.
use crate::config::{ChannelConfig, FuseConfig};
use crate::double::Double;
use crate::error::ResumeError;
use crate::fuser::{
    compatible, entering, enters, exponentials, fuses_statelessly, registered, registrable,
    registration_refusal, state_refusal, stateless_baselines, Fused, Fuser,
};
use crate::ingest::input::{ChannelInput, Items};
use crate::laws::ranking::lemma_ranking_is_complete;
use crate::ordered::OrderedMap;
use crate::state::{ChannelSummary, RuffleState};
use crate::weighting::fusion::{fused_ranking, surfaced};
use vstd::prelude::*;

verus! {

/// Each number of a channel's items stands for the text at the same position, and the
/// scores are the same.
pub open spec fn stands_for(
    numbered: Items<usize>,
    items: Items<String>,
    texts: Seq<String>,
) -> bool {
    &&& numbered is Scored <==> items is Scored
    &&& numbered.size() == items.size()
    &&& forall|p: int|
        0 <= p < items.size() ==> (#[trigger] numbered.id_at(p)) < texts.len()
            && texts[numbered.id_at(p) as int]@ == items.id_at(p)@
    &&& items is Scored ==> forall|p: int|
        0 <= p < items.size() ==> (#[trigger] numbered->Scored_0@[p]).1 == items->Scored_0@[p].1
}

/// An item of a channel has this text as its id.
pub open spec fn mentions(items: Items<String>, text: Seq<char>) -> bool {
    exists|p: int| 0 <= p < items.size() && (#[trigger] items.id_at(p))@ == text
}

/// One of the first `n` inputs has an item with this text as its id.
pub open spec fn mentioned(obs: Seq<ChannelInput<String>>, n: int, text: Seq<char>) -> bool {
    exists|c: int| 0 <= c < n && mentions((#[trigger] obs[c]).items, text)
}

/// `inputs` are the inputs `obs` with each id replaced by its place among `texts`, which are
/// the distinct ids that occur.
pub open spec fn numbers(
    inputs: Seq<ChannelInput<usize>>,
    obs: Seq<ChannelInput<String>>,
    texts: Seq<String>,
) -> bool {
    &&& inputs.len() == obs.len()
    &&& forall|c: int|
        0 <= c < obs.len() ==> (#[trigger] inputs[c]).key == obs[c].key && stands_for(
            inputs[c].items,
            obs[c].items,
            texts,
        )
    &&& forall|s: int, t: int|
        #![trigger texts[s], texts[t]]
        0 <= s < t < texts.len() ==> texts[s]@ != texts[t]@
    &&& forall|t: int|
        0 <= t < texts.len() ==> mentioned(obs, obs.len() as int, (#[trigger] texts[t])@)
}

/// `fused` is `numbered` with each number of the ranking replaced by its text.
pub open spec fn names(fused: Fused<String>, numbered: Fused<usize>, texts: Seq<String>) -> bool {
    &&& fused.ranking@.len() == numbered.ranking@.len()
    &&& forall|r: int|
        0 <= r < numbered.ranking@.len() ==> (#[trigger] numbered.ranking@[r]).0 < texts.len()
            && fused.ranking@[r].0@ == texts[numbered.ranking@[r].0 as int]@ && fused.ranking@[r].1
            == numbered.ranking@[r].1
    &&& fused.weights == numbered.weights
    &&& fused.flags == numbered.flags
    &&& fused.discrimination == numbered.discrimination
    &&& fused.confidence == numbered.confidence
    &&& fused.conflict == numbered.conflict
}

/// The map finds each text at its place.
spec fn catalogues(places: Map<Seq<char>, usize>, texts: Seq<String>) -> bool {
    &&& forall|t: int|
        0 <= t < texts.len() ==> places.contains_key((#[trigger] texts[t])@) && places[texts[t]@]
            == t
    &&& forall|k: Seq<char>| #[trigger]
        places.contains_key(k) ==> places[k] < texts.len() && texts[places[k] as int]@ == k
}

/// The number of a text, which is the next one where the text is new.
fn number_of(
    text: &String,
    places: &mut OrderedMap<String, usize>,
    texts: &mut Vec<String>,
) -> (n: usize)
    requires
        old(places).wf(),
        catalogues(old(places)@, old(texts)@),
    ensures
        final(places).wf(),
        catalogues(final(places)@, final(texts)@),
        n < final(texts)@.len(),
        final(texts)@[n as int]@ == text@,
        final(texts)@ == old(texts)@ || final(texts)@ == old(texts)@.push(*text),
{
    match places.get(text) {
        Some(n) => *n,
        None => {
            let n: usize = texts.len();
            let ghost before = texts@;
            places.insert(text.clone(), n);
            texts.push(text.clone());
            proof {
                assert forall|t: int| 0 <= t < texts@.len() implies places@.contains_key(
                    (#[trigger] texts@[t])@,
                ) && places@[texts@[t]@] == t by {
                    if t < n {
                        assert(texts@[t] == before[t]);
                    }
                }
            }
            n
        },
    }
}

/// Numbers the ids of one channel's items.
fn number_items(
    items: &Items<String>,
    places: &mut OrderedMap<String, usize>,
    texts: &mut Vec<String>,
) -> (numbered: Items<usize>)
    requires
        old(places).wf(),
        catalogues(old(places)@, old(texts)@),
    ensures
        final(places).wf(),
        catalogues(final(places)@, final(texts)@),
        old(texts)@.len() <= final(texts)@.len(),
        forall|t: int|
            0 <= t < old(texts)@.len() ==> #[trigger] final(texts)@[t] == old(texts)@[t],
        forall|t: int|
            old(texts)@.len() <= t < final(texts)@.len() ==> mentions(
                *items,
                (#[trigger] final(texts)@[t])@,
            ),
        stands_for(numbered, *items, final(texts)@),
{
    let ghost first = texts@;
    match items {
        Items::Scored(v) => {
            let mut out: Vec<(usize, Double)> = Vec::new();
            let mut p: usize = 0;
            while p < v.len()
                invariant
                    *items == Items::Scored(*v),
                    p <= v@.len(),
                    places.wf(),
                    catalogues(places@, texts@),
                    first.len() <= texts@.len(),
                    forall|t: int| 0 <= t < first.len() ==> #[trigger] texts@[t] == first[t],
                    forall|t: int|
                        first.len() <= t < texts@.len() ==> mentions(
                            *items,
                            (#[trigger] texts@[t])@,
                        ),
                    out@.len() == p,
                    forall|q: int|
                        0 <= q < p ==> (#[trigger] out@[q]).0 < texts@.len()
                            && texts@[out@[q].0 as int]@ == items.id_at(q)@ && out@[q].1
                            == v@[q].1,
                decreases v@.len() - p,
            {
                let ghost before = texts@;
                let n = number_of(&v[p].0, places, texts);
                proof {
                    assert(items.id_at(p as int)@ == v@[p as int].0@);
                    assert(mentions(*items, v@[p as int].0@));
                    assert forall|q: int| 0 <= q < p implies (#[trigger] out@[q]).0 < texts@.len()
                        && texts@[out@[q].0 as int]@ == items.id_at(q)@ by {
                        assert(texts@[out@[q].0 as int] == before[out@[q].0 as int]);
                    }
                }
                out.push((n, v[p].1));
                p += 1;
            }
            let numbered = Items::Scored(out);
            assert forall|q: int| 0 <= q < items.size() implies (#[trigger] numbered.id_at(q))
                < texts@.len() && texts@[numbered.id_at(q) as int]@ == items.id_at(q)@ by {
                assert(numbered.id_at(q) == out@[q].0);
            }
            numbered
        },
        Items::Ranks(v) => {
            let mut out: Vec<usize> = Vec::new();
            let mut p: usize = 0;
            while p < v.len()
                invariant
                    *items == Items::Ranks(*v),
                    p <= v@.len(),
                    places.wf(),
                    catalogues(places@, texts@),
                    first.len() <= texts@.len(),
                    forall|t: int| 0 <= t < first.len() ==> #[trigger] texts@[t] == first[t],
                    forall|t: int|
                        first.len() <= t < texts@.len() ==> mentions(
                            *items,
                            (#[trigger] texts@[t])@,
                        ),
                    out@.len() == p,
                    forall|q: int|
                        0 <= q < p ==> (#[trigger] out@[q]) < texts@.len()
                            && texts@[out@[q] as int]@ == items.id_at(q)@,
                decreases v@.len() - p,
            {
                let ghost before = texts@;
                let n = number_of(&v[p], places, texts);
                proof {
                    assert(items.id_at(p as int)@ == v@[p as int]@);
                    assert(mentions(*items, v@[p as int]@));
                    assert forall|q: int| 0 <= q < p implies (#[trigger] out@[q]) < texts@.len()
                        && texts@[out@[q] as int]@ == items.id_at(q)@ by {
                        assert(texts@[out@[q] as int] == before[out@[q] as int]);
                    }
                }
                out.push(n);
                p += 1;
            }
            let numbered = Items::Ranks(out);
            assert forall|q: int| 0 <= q < items.size() implies (#[trigger] numbered.id_at(q))
                < texts@.len() && texts@[numbered.id_at(q) as int]@ == items.id_at(q)@ by {
                assert(numbered.id_at(q) == out@[q]);
            }
            numbered
        },
    }
}

/// Numbers the distinct ids of all inputs from zero, and lists the texts that the numbers
/// stand for.
pub fn number_texts(obs: &[ChannelInput<String>]) -> (r: (Vec<ChannelInput<usize>>, Vec<String>))
    ensures
        numbers(r.0@, obs@, r.1@),
{
    let mut places: OrderedMap<String, usize> = OrderedMap::new();
    let mut texts: Vec<String> = Vec::new();
    let mut inputs: Vec<ChannelInput<usize>> = Vec::new();
    let mut c: usize = 0;
    while c < obs.len()
        invariant
            c <= obs@.len(),
            places.wf(),
            catalogues(places@, texts@),
            inputs@.len() == c,
            forall|d: int|
                0 <= d < c ==> (#[trigger] inputs@[d]).key == obs@[d].key && stands_for(
                    inputs@[d].items,
                    obs@[d].items,
                    texts@,
                ),
            forall|t: int|
                0 <= t < texts@.len() ==> mentioned(obs@, c as int, (#[trigger] texts@[t])@),
        decreases obs@.len() - c,
    {
        let ghost before = texts@;
        let numbered = number_items(&obs[c].items, &mut places, &mut texts);
        proof {
            assert forall|d: int| 0 <= d < c implies stands_for(
                (#[trigger] inputs@[d]).items,
                obs@[d].items,
                texts@,
            ) by {
                let old_items = inputs@[d].items;
                assert forall|p: int| 0 <= p < obs@[d].items.size() implies (
                #[trigger] old_items.id_at(p)) < texts@.len() && texts@[old_items.id_at(
                    p,
                ) as int]@ == obs@[d].items.id_at(p)@ by {
                    assert(texts@[old_items.id_at(p) as int] == before[old_items.id_at(p) as int]);
                }
            }
            assert forall|t: int| 0 <= t < texts@.len() implies mentioned(
                obs@,
                c + 1,
                (#[trigger] texts@[t])@,
            ) by {
                if t < before.len() {
                    assert(mentioned(obs@, c as int, before[t]@));
                } else {
                    assert(mentions(obs@[c as int].items, texts@[t]@));
                }
            }
        }
        inputs.push(ChannelInput { key: obs[c].key.clone(), items: numbered });
        c += 1;
    }
    assert forall|s: int, t: int|
        #![trigger texts@[s], texts@[t]]
        0 <= s < t < texts@.len() implies texts@[s]@ != texts@[t]@ by {
        assert(places@[texts@[s]@] == s && places@[texts@[t]@] == t);
    }
    (inputs, texts)
}

/// An input that enters the fusion is one of the inputs.
proof fn lemma_entering_source<Id>(
    obs: Seq<ChannelInput<Id>>,
    registry: Map<Seq<char>, ChannelConfig>,
    channels: Map<Seq<char>, ChannelSummary>,
    n: int,
    c: int,
) -> (d: int)
    requires
        0 <= n <= obs.len(),
        0 <= c < entering(obs, registry, channels, n).len(),
    ensures
        0 <= d < n,
        entering(obs, registry, channels, n)[c] == obs[d],
    decreases n,
{
    if enters(obs, registry, channels, n - 1) && c == entering(
        obs,
        registry,
        channels,
        n - 1,
    ).len() {
        n - 1
    } else {
        lemma_entering_source(obs, registry, channels, n - 1, c)
    }
}

/// Every number in the ranking of numbered inputs stands for a text.
proof fn lemma_ranking_stands_for(
    inputs: Seq<ChannelInput<usize>>,
    obs: Seq<ChannelInput<String>>,
    texts: Seq<String>,
    registry: Map<Seq<char>, ChannelConfig>,
    channels: Map<Seq<char>, ChannelSummary>,
    weights: Map<Seq<char>, Double>,
    eta: Double,
)
    requires
        numbers(inputs, obs, texts),
        surfaced(entering(inputs, registry, channels, inputs.len() as int)).len() <= usize::MAX,
    ensures
        ({
            let ranking = fused_ranking(
                entering(inputs, registry, channels, inputs.len() as int),
                weights,
                eta,
            );
            forall|r: int| 0 <= r < ranking.len() ==> (#[trigger] ranking[r]).0 < texts.len()
        }),
{
    let n = inputs.len() as int;
    let chosen = entering(inputs, registry, channels, n);
    let ranking = fused_ranking(chosen, weights, eta);
    assert forall|r: int| 0 <= r < ranking.len() implies (#[trigger] ranking[r]).0 < texts.len() by {
        let id = ranking[r].0;
        lemma_ranking_is_complete(chosen, weights, eta, id);
        let (c, p) = choose|c: int, p: int|
            0 <= c < chosen.len() && 0 <= p < chosen[c].items.size()
                && #[trigger] chosen[c].items.id_at(p) == id;
        let d = lemma_entering_source(inputs, registry, channels, n, c);
        assert(stands_for(inputs[d].items, obs[d].items, texts));
        assert(inputs[d].items.id_at(p) == id);
    }
}

/// Names the numbers of a ranking.
fn name_fused(numbered: Fused<usize>, texts: &Vec<String>) -> (fused: Fused<String>)
    requires
        forall|r: int|
            0 <= r < numbered.ranking@.len() ==> (#[trigger] numbered.ranking@[r]).0 < texts@.len(),
    ensures
        names(fused, numbered, texts@),
{
    let mut ranking: Vec<(String, Double)> = Vec::new();
    let mut r: usize = 0;
    while r < numbered.ranking.len()
        invariant
            r <= numbered.ranking@.len(),
            forall|q: int|
                0 <= q < numbered.ranking@.len() ==> (#[trigger] numbered.ranking@[q]).0
                    < texts@.len(),
            ranking@.len() == r,
            forall|q: int|
                0 <= q < r ==> (#[trigger] ranking@[q]).0@ == texts@[numbered.ranking@[q].0 as int]@
                    && ranking@[q].1 == numbered.ranking@[q].1,
        decreases numbered.ranking@.len() - r,
    {
        let (n, score): (usize, Double) = numbered.ranking[r];
        ranking.push((texts[n].clone(), score));
        r += 1;
    }
    Fused {
        ranking,
        weights: numbered.weights,
        flags: numbered.flags,
        discrimination: numbered.discrimination,
        confidence: numbered.confidence,
        conflict: numbered.conflict,
    }
}

/// Fuses one query whose ids are texts, as [`Fuser::fuse`] does.
pub fn fuse_texts<E: Fn(Double) -> Double>(
    fuser: &mut Fuser,
    obs: &[ChannelInput<String>],
    exp: &E,
) -> (fused: Fused<String>)
    requires
        old(fuser).wf(),
        forall|x: Double| call_requires(*exp, (x,)),
    ensures
        exists|
            inputs: Seq<ChannelInput<usize>>,
            texts: Seq<String>,
            exps: Seq<(Double, Double)>,
            numbered: Fused<usize>,
        |
            #![trigger numbers(inputs, obs@, texts), old(fuser).fuses(inputs, exps, *final(fuser), numbered)]
            numbers(inputs, obs@, texts) && exponentials(
                inputs,
                old(fuser).registry()@,
                old(fuser).baselines_for(inputs),
                old(fuser).settings(),
                *exp,
                exps,
            ) && old(fuser).fuses(inputs, exps, *final(fuser), numbered) && names(
                fused,
                numbered,
                texts,
            ),
{
    let (inputs, texts) = number_texts(obs);
    let numbered = fuser.fuse(inputs.as_slice(), exp);
    proof {
        let channels = old(fuser).baselines_for(inputs@);
        let registry = old(fuser).registry()@;
        let eta = old(fuser).settings().fusion.rrf_eta;
        assert(numbered.ranking.len() == surfaced(
            entering(inputs@, registry, channels, inputs@.len() as int),
        ).len());
        lemma_ranking_stands_for(
            inputs@,
            obs@,
            texts@,
            registry,
            channels,
            numbered.weights@,
            eta,
        );
    }
    name_fused(numbered, &texts)
}

/// Fuses one query whose ids are texts, as [`Fuser::fuse_stateless`] does.
pub fn fuse_stateless_texts<E: Fn(Double) -> Double>(
    obs: &[ChannelInput<String>],
    configs: &[ChannelConfig],
    prior: &RuffleState,
    cfg: &FuseConfig,
    exp: &E,
) -> (r: Result<Fused<String>, ResumeError>)
    requires
        prior.wf(),
        forall|x: Double| call_requires(*exp, (x,)),
    ensures
        r is Ok <==> registrable(configs@, *cfg) && compatible(configs@, *prior, *cfg),
        !registrable(configs@, *cfg) ==> r->Err_0 is Config && registration_refusal(
            configs@,
            *cfg,
            r->Err_0->Config_0,
        ),
        registrable(configs@, *cfg) && !compatible(configs@, *prior, *cfg) ==> r->Err_0 is State
            && state_refusal(configs@, *prior, *cfg, r->Err_0->State_0),
        r is Ok ==> exists|
            inputs: Seq<ChannelInput<usize>>,
            texts: Seq<String>,
            exps: Seq<(Double, Double)>,
            numbered: Fused<usize>,
        |
            #![trigger numbers(inputs, obs@, texts), fuses_statelessly(inputs, configs@, *prior, *cfg, exps, numbered)]
            numbers(inputs, obs@, texts) && exponentials(
                inputs,
                registered(configs@, configs@.len() as int),
                stateless_baselines(inputs, configs@, *prior),
                *cfg,
                *exp,
                exps,
            ) && fuses_statelessly(inputs, configs@, *prior, *cfg, exps, numbered) && names(
                r->Ok_0,
                numbered,
                texts,
            ),
{
    let (inputs, texts) = number_texts(obs);
    match Fuser::fuse_stateless(inputs.as_slice(), configs, prior, cfg, exp) {
        Ok(numbered) => {
            proof {
                let registry = registered(configs@, configs@.len() as int);
                let channels = stateless_baselines(inputs@, configs@, *prior);
                assert(numbered.ranking.len() == surfaced(
                    entering(inputs@, registry, channels, inputs@.len() as int),
                ).len());
                lemma_ranking_stands_for(
                    inputs@,
                    obs@,
                    texts@,
                    registry,
                    channels,
                    numbered.weights@,
                    cfg.fusion.rrf_eta,
                );
            }
            Ok(name_fused(numbered, &texts))
        },
        Err(e) => Err(e),
    }
}

} // verus!
