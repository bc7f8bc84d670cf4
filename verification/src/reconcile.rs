//! What the command line tool decides: reconciling several states, and renaming a channel.
//!
//! Reading and writing files stays outside; here are the decisions on loaded states.

use crate::error::Mismatch;
use crate::ordered::{map_of, OrderedMap};
use crate::pooling::lemma_prefix_map;
use crate::state::{
    behind, drift, gaps, mergeable, merges_to, refusal, rekeyed, same_contents, Divergence, MergePolicy,
    RuffleState,
};
use crate::text::{decimal, decimal_text, list_text, listed_or_none, texts};
use vstd::prelude::*;

verus! {

/// The outcome of reconciling several states.
#[derive(Debug, Clone, PartialEq)]
pub struct Reconciliation {
    /// The merged state.
    pub merged: RuffleState,
    /// The advisory divergence between the inputs.
    pub divergence: Divergence,
    /// How many of the inputs carry each channel.
    pub counts: OrderedMap<String, usize>,
    /// One line for each channel that only some of the inputs carry.
    pub warnings: Vec<String>,
}

/// How many of the first `n` states carry a channel.
pub open spec fn carriers(parts: Seq<RuffleState>, n: int, key: Seq<char>) -> nat
    decreases n,
{
    if n <= 0 {
        0
    } else if parts[n - 1].channel_table()@.contains_key(key) {
        carriers(parts, n - 1, key) + 1
    } else {
        carriers(parts, n - 1, key)
    }
}

/// The counts are those of all channels that a state carries.
pub open spec fn counts_carriers(parts: Seq<RuffleState>, counts: Map<Seq<char>, usize>) -> bool {
    &&& forall|k: Seq<char>| #[trigger]
        counts.contains_key(k) <==> carriers(parts, parts.len() as int, k) > 0
    &&& forall|k: Seq<char>|
        counts.contains_key(k) ==> #[trigger] counts[k] == carriers(parts, parts.len() as int, k)
}

/// The warning about a channel that only some inputs carry.
pub open spec fn warning(key: Seq<char>, count: int, n: int) -> Seq<char> {
    "ruffle: warning: channel \""@ + key + "\" present in "@ + decimal(count) + " of "@ + decimal(n)
        + " inputs; carried through the union, not dropped"@
}

/// The warnings about the first `m` channels, in key order.
pub open spec fn warnings_for(s: Seq<(String, usize)>, n: int, m: int) -> Seq<Seq<char>>
    decreases m,
{
    if m <= 0 {
        Seq::empty()
    } else if s[m - 1].1 < n {
        warnings_for(s, n, m - 1).push(warning(s[m - 1].0@, s[m - 1].1 as int, n))
    } else {
        warnings_for(s, n, m - 1)
    }
}

/// The channels among the first `m` that are counted more than once.
pub open spec fn shared_keys(s: Seq<(String, usize)>, m: int) -> Seq<Seq<char>>
    decreases m,
{
    if m <= 0 {
        Seq::empty()
    } else if s[m - 1].1 > 1 {
        shared_keys(s, m - 1).push(s[m - 1].0@)
    } else {
        shared_keys(s, m - 1)
    }
}

/// The channels among the first `m` that are counted exactly once.
pub open spec fn single_keys(s: Seq<(String, usize)>, m: int) -> Seq<Seq<char>>
    decreases m,
{
    if m <= 0 {
        Seq::empty()
    } else if s[m - 1].1 == 1 {
        single_keys(s, m - 1).push(s[m - 1].0@)
    } else {
        single_keys(s, m - 1)
    }
}

proof fn lemma_carriers_bound(parts: Seq<RuffleState>, n: int, key: Seq<char>)
    requires
        0 <= n,
    ensures
        carriers(parts, n, key) <= n,
    decreases n,
{
    if n > 0 {
        lemma_carriers_bound(parts, n - 1, key);
    }
}

/// How many of the inputs carry each channel key.
pub fn channel_input_counts(parts: &[RuffleState]) -> (counts: OrderedMap<String, usize>)
    requires
        forall|i: int| 0 <= i < parts@.len() ==> (#[trigger] parts@[i]).wf(),
    ensures
        counts.wf(),
        counts_carriers(parts@, counts@),
{
    let mut counts: OrderedMap<String, usize> = OrderedMap::new();
    let total: usize = parts.len();
    let mut i: usize = 0;
    while i < total
        invariant
            total == parts@.len(),
            forall|h: int| 0 <= h < parts@.len() ==> (#[trigger] parts@[h]).wf(),
            i <= parts@.len(),
            counts.wf(),
            forall|k: Seq<char>| #[trigger]
                counts@.contains_key(k) <==> carriers(parts@, i as int, k) > 0,
            forall|k: Seq<char>|
                counts@.contains_key(k) ==> #[trigger] counts@[k] == carriers(parts@, i as int, k),
        decreases parts@.len() - i,
    {
        let channels = parts[i].channel_map();
        assert(parts@[i as int].wf());
        let ghost s = channels.sequence();
        let mut j: usize = 0;
        assert(map_of(s.take(0)) =~= Map::<Seq<char>, crate::state::ChannelSummary>::empty());
        while j < channels.len()
            invariant
                i < total,
                i < parts@.len(),
                channels.wf(),
                s == channels.sequence(),
                j <= s.len(),
                counts.wf(),
                forall|k: Seq<char>| #[trigger]
                    counts@.contains_key(k) <==> carriers(parts@, i as int, k) > 0 || map_of(
                        s.take(j as int),
                    ).contains_key(k),
                forall|k: Seq<char>|
                    counts@.contains_key(k) ==> #[trigger] counts@[k] == carriers(
                        parts@,
                        i as int,
                        k,
                    ) + if map_of(s.take(j as int)).contains_key(k) {
                        1int
                    } else {
                        0
                    },
            decreases s.len() - j,
        {
            proof {
                lemma_prefix_map(s, j as int);
                lemma_carriers_bound(parts@, i as int, s[j as int].0@);
            }
            let key = channels.key_at(j);
            assert(counts@.contains_key(key@) ==> counts@[key@] <= i);
            let count: usize = match counts.get(key) {
                Some(count) => *count + 1,
                None => 1,
            };
            counts.insert(key.clone(), count);
            j += 1;
        }
        assert(s.take(s.len() as int) =~= s);
        i += 1;
    }
    counts
}

fn warning_text(key: &String, count: usize, n: usize) -> (text: String)
    ensures
        text@ == warning(key@, count as int, n as int),
{
    let mut text = "ruffle: warning: channel \"".to_owned();
    text.append(key.as_str());
    text.append("\" present in ");
    text.append(decimal_text(count as u64).as_str());
    text.append(" of ");
    text.append(decimal_text(n as u64).as_str());
    text.append(" inputs; carried through the union, not dropped");
    text
}

/// A warning for each channel that only some of `n` inputs carry, in key order.
pub fn asymmetry_warnings(counts: &OrderedMap<String, usize>, n: usize) -> (warnings: Vec<String>)
    ensures
        texts(warnings@) == warnings_for(
            counts.sequence(),
            n as int,
            counts.sequence().len() as int,
        ),
{
    let mut warnings: Vec<String> = Vec::new();
    let mut i: usize = 0;
    assert(texts(warnings@) =~= warnings_for(counts.sequence(), n as int, 0));
    while i < counts.len()
        invariant
            i <= counts.sequence().len(),
            texts(warnings@) == warnings_for(counts.sequence(), n as int, i as int),
        decreases counts.sequence().len() - i,
    {
        let count: usize = *counts.value_at(i);
        if count < n {
            let ghost before = warnings@;
            let line = warning_text(counts.key_at(i), count, n);
            let ghost said = line@;
            warnings.push(line);
            assert(texts(warnings@) =~= texts(before).push(said));
        }
        i += 1;
    }
    warnings
}

/// The channels that more than one input carries, in key order.
pub fn merged_keys(counts: &OrderedMap<String, usize>) -> (keys: Vec<String>)
    ensures
        texts(keys@) == shared_keys(counts.sequence(), counts.sequence().len() as int),
{
    let mut keys: Vec<String> = Vec::new();
    let mut i: usize = 0;
    assert(texts(keys@) =~= shared_keys(counts.sequence(), 0));
    while i < counts.len()
        invariant
            i <= counts.sequence().len(),
            texts(keys@) == shared_keys(counts.sequence(), i as int),
        decreases counts.sequence().len() - i,
    {
        if *counts.value_at(i) > 1 {
            let ghost before = keys@;
            let key = counts.key_at(i);
            keys.push(key.clone());
            assert(texts(keys@) =~= texts(before).push(key@));
        }
        i += 1;
    }
    keys
}

/// The channels that a single input carries, in key order.
pub fn carried_keys(counts: &OrderedMap<String, usize>) -> (keys: Vec<String>)
    ensures
        texts(keys@) == single_keys(counts.sequence(), counts.sequence().len() as int),
{
    let mut keys: Vec<String> = Vec::new();
    let mut i: usize = 0;
    assert(texts(keys@) =~= single_keys(counts.sequence(), 0));
    while i < counts.len()
        invariant
            i <= counts.sequence().len(),
            texts(keys@) == single_keys(counts.sequence(), i as int),
        decreases counts.sequence().len() - i,
    {
        if *counts.value_at(i) == 1 {
            let ghost before = keys@;
            let key = counts.key_at(i);
            keys.push(key.clone());
            assert(texts(keys@) =~= texts(before).push(key@));
        }
        i += 1;
    }
    keys
}

/// The lines of a report on a divergence: the largest distance, and then those of the first
/// `n` channels.
pub open spec fn divergence_lines(
    max: Seq<char>,
    distances: Seq<(String, String)>,
    n: int,
) -> Seq<Seq<char>>
    decreases n,
{
    if n <= 0 {
        seq!["  max: "@ + max]
    } else {
        divergence_lines(max, distances, n - 1).push(
            "  "@ + distances[n - 1].0@ + ": "@ + distances[n - 1].1@,
        )
    }
}

/// What the report on a reconciliation says first.
pub open spec fn reconcile_heading() -> Seq<char> {
    "divergence (advisory; never overrides the tag gate). High divergence under matching tags is the silent-model-swap signature; low divergence under differing tags is benign."@
}

/// What the report on a renaming says first.
pub open spec fn rekey_heading() -> Seq<char> {
    "rekey sanity check: divergence of the rekeyed state against the input (the renamed channel drops out; untouched channels should read 0)."@
}

/// A heading and the lines of a report on a divergence.
fn report_lines(heading: &str, max: &str, distances: &[(String, String)]) -> (lines: Vec<String>)
    ensures
        texts(lines@) == seq![heading@] + divergence_lines(
            max@,
            distances@,
            distances@.len() as int,
        ),
{
    let mut lines: Vec<String> = Vec::new();
    lines.push(heading.to_owned());
    let mut first = "  max: ".to_owned();
    first.append(max);
    lines.push(first);
    let mut i: usize = 0;
    assert(texts(lines@) =~= seq![heading@] + divergence_lines(max@, distances@, 0));
    while i < distances.len()
        invariant
            i <= distances@.len(),
            texts(lines@) == seq![heading@] + divergence_lines(max@, distances@, i as int),
        decreases distances@.len() - i,
    {
        let ghost before = lines@;
        let mut line = "  ".to_owned();
        line.append(distances[i].0.as_str());
        line.append(": ");
        line.append(distances[i].1.as_str());
        let ghost said = line@;
        lines.push(line);
        i += 1;
        assert(texts(lines@) =~= texts(before).push(said));
        assert(texts(lines@) =~= seq![heading@] + divergence_lines(max@, distances@, i as int));
    }
    lines
}

/// The report on a reconciliation: the divergence, the channels that were merged, and those
/// that a single input carries. The distances come as text, in key order.
pub fn reconcile_report(
    max: &str,
    distances: &[(String, String)],
    counts: &OrderedMap<String, usize>,
) -> (lines: Vec<String>)
    ensures
        texts(lines@) == seq![reconcile_heading()] + divergence_lines(
            max@,
            distances@,
            distances@.len() as int,
        ) + seq![
            "channels merged (present in more than one input): "@ + listed_or_none(
                shared_keys(counts.sequence(), counts.sequence().len() as int),
            ),
            "channels carried from a single input: "@ + listed_or_none(
                single_keys(counts.sequence(), counts.sequence().len() as int),
            ),
        ],
{
    let mut lines = report_lines(
        "divergence (advisory; never overrides the tag gate). High divergence under matching tags is the silent-model-swap signature; low divergence under differing tags is benign.",
        max,
        distances,
    );
    let ghost before = texts(lines@);
    let mut merged = "channels merged (present in more than one input): ".to_owned();
    merged.append(list_text(&merged_keys(counts)).as_str());
    let mut carried = "channels carried from a single input: ".to_owned();
    carried.append(list_text(&carried_keys(counts)).as_str());
    let ghost said = seq![merged@, carried@];
    lines.push(merged);
    lines.push(carried);
    assert(texts(lines@) =~= before + said);
    lines
}

/// The report on a renaming. The distances come as text, in key order.
pub fn rekey_report(max: &str, distances: &[(String, String)]) -> (lines: Vec<String>)
    ensures
        texts(lines@) == seq![rekey_heading()] + divergence_lines(
            max@,
            distances@,
            distances@.len() as int,
        ),
{
    report_lines(
        "rekey sanity check: divergence of the rekeyed state against the input (the renamed channel drops out; untouched channels should read 0).",
        max,
        distances,
    )
}

/// Reconciles several loaded states into one, refusing on any incompatibility.
///
/// Channels that only some of the inputs carry are carried through the union, with a
/// warning each.
pub fn reconcile(parts: &[RuffleState]) -> (r: Result<Reconciliation, Mismatch>)
    requires
        forall|i: int| 0 <= i < parts@.len() ==> (#[trigger] parts@[i]).wf(),
    ensures
        r is Ok <==> mergeable(parts@),
        r is Err ==> refusal(parts@, r->Err_0),
        r is Ok ==> {
            let out = r->Ok_0;
            &&& merges_to(parts@, out.merged)
            &&& out.divergence.measures(drift(parts@, parts@.len() as int, 0))
            &&& out.counts.wf()
            &&& counts_carriers(parts@, out.counts@)
            &&& texts(out.warnings@) == warnings_for(
                out.counts.sequence(),
                parts@.len() as int,
                out.counts.sequence().len() as int,
            )
        },
{
    let mut refs: Vec<&RuffleState> = Vec::new();
    let mut i: usize = 0;
    while i < parts.len()
        invariant
            i <= parts@.len(),
            refs@.len() == i,
            forall|h: int| 0 <= h < i ==> *(#[trigger] refs@[h]) == parts@[h],
        decreases parts@.len() - i,
    {
        refs.push(&parts[i]);
        i += 1;
    }
    assert(behind(refs@) =~= parts@);
    match RuffleState::merge(refs.as_slice(), MergePolicy::Strict) {
        Ok((merged, divergence)) => {
            let counts = channel_input_counts(parts);
            let warnings = asymmetry_warnings(&counts, parts.len());
            Ok(Reconciliation { merged, divergence, counts, warnings })
        },
        Err(e) => Err(e),
    }
}

/// Renames a channel key in a loaded state: the rewritten state, and its divergence
/// against the input as a sanity check.
pub fn rekey_cmd(original: &RuffleState, from: &str, to: &str) -> (r: (RuffleState, Divergence))
    requires
        original.wf(),
    ensures
        r.0.wf(),
        from@ == to@ ==> same_contents(r.0, *original),
        from@ != to@ ==> rekeyed(*original, from@, to@, r.0),
        r.1.measures(gaps(r.0, *original)),
{
    let mut state = original.duplicate();
    let ghost copy = state;
    state.rekey(from, to.to_owned());
    proof {
        if from@ != to@ {
            crate::state::lemma_rekeyed_same(copy, *original, from@, to@, state);
        }
    }
    let divergence = state.divergence(original);
    (state, divergence)
}

} // verus!
