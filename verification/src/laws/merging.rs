//! Laws of persistent state: merging, divergence, renaming, decay.
use crate::double::{fabs, fadd, fcount, fdiv, flt, froot, fsub, fzero, lemma_add_commutes, Double};
use crate::exact::{lemma_magnitude_sign, lemma_zero_div};
use crate::keys::{canonical, STAT_VERSION};
use crate::ordered::{lemma_canonical, lemma_entry, position, holds_key, MapKey};
use crate::pooling::united;
use crate::score::Direction;
use crate::state::{
    decayed_channel, distance, drift, gaps, lemma_distance_bounded, mentioning, mentions, mergeable,
    merges_to, one_format, one_orientation, one_statistic, one_tagging, other_format,
    other_statistics, pairs_canonical, rekeyed, renamed_pair, renamed_pairs, retags, same_contents,
    turns,
    united_channels, united_directions, united_pairs, ChannelSummary, PairSummary, RuffleState,
    FORMAT_VERSION,
};
use crate::summary::{lemma_merge_commutes, MeanVar};
use vstd::prelude::*;

verus! {

/// Merging unites: a channel is in the result exactly where one of the states carries it.
pub proof fn lemma_merge_unites_channels(parts: Seq<RuffleState>, n: int, key: Seq<char>)
    requires
        0 <= n <= parts.len(),
    ensures
        united_channels(parts, n).contains_key(key) <==> exists|i: int|
            0 <= i < n && (#[trigger] parts[i]).channel_table()@.contains_key(key),
    decreases n,
{
    if n > 0 {
        lemma_merge_unites_channels(parts, n - 1, key);
        if parts[n - 1].channel_table()@.contains_key(key) {
            assert(united_channels(parts, n).contains_key(key));
        }
        if united_channels(parts, n - 1).contains_key(key) {
            let i = choose|i: int|
                0 <= i < n - 1 && (#[trigger] parts[i]).channel_table()@.contains_key(key);
            assert(0 <= i < n && parts[i].channel_table()@.contains_key(key));
        }
    }
}

/// Merging unites: a pair is in the result exactly where one of the states carries it.
pub proof fn lemma_merge_unites_pairs(
    parts: Seq<RuffleState>,
    n: int,
    pair: (Seq<char>, Seq<char>),
)
    requires
        0 <= n <= parts.len(),
    ensures
        united_pairs(parts, n).contains_key(pair) <==> exists|i: int|
            0 <= i < n && (#[trigger] parts[i]).pair_table()@.contains_key(pair),
    decreases n,
{
    if n > 0 {
        lemma_merge_unites_pairs(parts, n - 1, pair);
        if parts[n - 1].pair_table()@.contains_key(pair) {
            assert(united_pairs(parts, n).contains_key(pair));
        }
        if united_pairs(parts, n - 1).contains_key(pair) {
            let i = choose|i: int|
                0 <= i < n - 1 && (#[trigger] parts[i]).pair_table()@.contains_key(pair);
            assert(0 <= i < n && parts[i].pair_table()@.contains_key(pair));
        }
    }
}

/// A merged channel keeps the tag of the first state that carries it.
proof fn lemma_first_tag(parts: Seq<RuffleState>, n: int, key: Seq<char>, i: int)
    requires
        0 <= i < n <= parts.len(),
        parts[i].channel_table()@.contains_key(key),
        forall|h: int| 0 <= h < i ==> !(#[trigger] parts[h]).channel_table()@.contains_key(key),
    ensures
        united_channels(parts, n).contains_key(key),
        united_channels(parts, n)[key].tag == parts[i].channel_table()@[key].tag,
    decreases n,
{
    if n - 1 == i {
        lemma_merge_unites_channels(parts, n - 1, key);
    } else {
        lemma_first_tag(parts, n - 1, key, i);
    }
}

proof fn lemma_first_direction(parts: Seq<RuffleState>, n: int, key: Seq<char>, i: int)
    requires
        0 <= i < n <= parts.len(),
        parts[i].stats().directions@.contains_key(key),
        forall|h: int|
            0 <= h < i ==> !(#[trigger] parts[h]).stats().directions@.contains_key(key),
    ensures
        united_directions(parts, n).contains_key(key),
        united_directions(parts, n)[key] == parts[i].stats().directions@[key],
    decreases n,
{
    if n - 1 == i {
        lemma_no_direction(parts, n - 1, key);
    } else {
        lemma_first_direction(parts, n - 1, key, i);
    }
}

proof fn lemma_no_direction(parts: Seq<RuffleState>, n: int, key: Seq<char>)
    requires
        0 <= n <= parts.len(),
        forall|h: int|
            0 <= h < n ==> !(#[trigger] parts[h]).stats().directions@.contains_key(key),
    ensures
        !united_directions(parts, n).contains_key(key),
    decreases n,
{
    if n > 0 {
        lemma_no_direction(parts, n - 1, key);
        assert(!parts[n - 1].stats().directions@.contains_key(key));
    }
}

/// The first of the states up to `j` that carries a channel.
proof fn lemma_first_carrier(parts: Seq<RuffleState>, key: Seq<char>, j: int) -> (i: int)
    requires
        0 <= j < parts.len(),
        parts[j].channel_table()@.contains_key(key),
    ensures
        0 <= i <= j,
        parts[i].channel_table()@.contains_key(key),
        forall|h: int| 0 <= h < i ==> !(#[trigger] parts[h]).channel_table()@.contains_key(key),
    decreases j,
{
    if exists|h: int| 0 <= h < j && (#[trigger] parts[h]).channel_table()@.contains_key(key) {
        let h = choose|h: int|
            0 <= h < j && (#[trigger] parts[h]).channel_table()@.contains_key(key);
        lemma_first_carrier(parts, key, h)
    } else {
        j
    }
}

proof fn lemma_first_orienter(parts: Seq<RuffleState>, key: Seq<char>, j: int) -> (i: int)
    requires
        0 <= j < parts.len(),
        parts[j].stats().directions@.contains_key(key),
    ensures
        0 <= i <= j,
        parts[i].stats().directions@.contains_key(key),
        forall|h: int|
            0 <= h < i ==> !(#[trigger] parts[h]).stats().directions@.contains_key(key),
    decreases j,
{
    if exists|h: int| 0 <= h < j && (#[trigger] parts[h]).stats().directions@.contains_key(key) {
        let h = choose|h: int|
            0 <= h < j && (#[trigger] parts[h]).stats().directions@.contains_key(key);
        lemma_first_orienter(parts, key, h)
    } else {
        j
    }
}

/// Two states agree on the tag of every channel they share.
pub open spec fn tags_agree(a: RuffleState, b: RuffleState) -> bool {
    forall|k: Seq<char>| #[trigger]
        a.channel_table()@.contains_key(k) && b.channel_table()@.contains_key(k)
            ==> a.channel_table()@[k].tag@ == b.channel_table()@[k].tag@
}

/// Two states agree on the orientation of every channel they share.
pub open spec fn directions_agree(a: RuffleState, b: RuffleState) -> bool {
    forall|k: Seq<char>| #[trigger]
        a.stats().directions@.contains_key(k) && b.stats().directions@.contains_key(k)
            ==> a.stats().directions@[k] == b.stats().directions@[k]
}

/// Whether states merge does not depend on their order: they do exactly where every one
/// of them has this library's versions and one baseline mode, and every two of them agree on
/// the tags and the orientations of the channels they share.
pub proof fn lemma_gate_is_pairwise(parts: Seq<RuffleState>)
    requires
        forall|i: int| 0 <= i < parts.len() ==> (#[trigger] parts[i]).wf(),
    ensures
        mergeable(parts) <==> {
            &&& parts.len() > 0
            &&& forall|i: int|
                0 <= i < parts.len() ==> (#[trigger] parts[i]).version() == FORMAT_VERSION
                    && parts[i].stats().stat_version == STAT_VERSION
                    && parts[i].stats().baseline_mode == parts[0].stats().baseline_mode
            &&& forall|i: int, j: int|
                #![trigger parts[i], parts[j]]
                0 <= i < parts.len() && 0 <= j < parts.len() ==> tags_agree(parts[i], parts[j])
                    && directions_agree(parts[i], parts[j])
        },
{
    if parts.len() > 0 {
        lemma_versions_pairwise(parts);
        lemma_tagging_pairwise(parts);
        lemma_orientation_pairwise(parts);
    }
}

proof fn lemma_versions_pairwise(parts: Seq<RuffleState>)
    requires
        parts.len() > 0,
    ensures
        one_format(parts) && one_statistic(parts) <==> forall|i: int|
            0 <= i < parts.len() ==> (#[trigger] parts[i]).version() == FORMAT_VERSION
                && parts[i].stats().stat_version == STAT_VERSION
                && parts[i].stats().baseline_mode == parts[0].stats().baseline_mode,
{
    if one_format(parts) && one_statistic(parts) {
        assert forall|i: int| 0 <= i < parts.len() implies (#[trigger] parts[i]).version()
            == FORMAT_VERSION && parts[i].stats().stat_version == STAT_VERSION
            && parts[i].stats().baseline_mode == parts[0].stats().baseline_mode by {
            assert(!other_format(parts, i));
            assert(!other_statistics(parts, i));
        }
    }
}

proof fn lemma_tagging_pairwise(parts: Seq<RuffleState>)
    requires
        forall|i: int| 0 <= i < parts.len() ==> (#[trigger] parts[i]).wf(),
    ensures
        one_tagging(parts) <==> forall|i: int, j: int|
            #![trigger parts[i], parts[j]]
            0 <= i < parts.len() && 0 <= j < parts.len() ==> tags_agree(parts[i], parts[j]),
{
    if one_tagging(parts) {
        assert forall|i: int, j: int|
            #![trigger parts[i], parts[j]]
            0 <= i < parts.len() && 0 <= j < parts.len() implies tags_agree(parts[i], parts[j]) by {
            assert forall|k: Seq<char>| #[trigger]
                parts[i].channel_table()@.contains_key(k) && parts[j].channel_table()@.contains_key(
                    k,
                ) implies parts[i].channel_table()@[k].tag@ == parts[j].channel_table()@[k].tag@ by {
                lemma_tag_of_first(parts, i, k);
                lemma_tag_of_first(parts, j, k);
            }
        }
    }
    if forall|i: int, j: int|
        #![trigger parts[i], parts[j]]
        0 <= i < parts.len() && 0 <= j < parts.len() ==> tags_agree(parts[i], parts[j]) {
        assert forall|i: int, j: int| !#[trigger] retags(parts, i, j) by {
            if retags(parts, i, j) {
                let s = parts[i].channel_table().sequence();
                let k = s[j].0@;
                assert(parts[i].wf());
                lemma_entry(s, j);
                lemma_merge_unites_channels(parts, i, k);
                let h = choose|h: int|
                    0 <= h < i && (#[trigger] parts[h]).channel_table()@.contains_key(k);
                let f = lemma_first_carrier(parts, k, h);
                lemma_first_tag(parts, i, k, f);
                assert(tags_agree(parts[f], parts[i]));
                assert(parts[f].channel_table()@.contains_key(k));
            }
        }
    }
}

/// With one tagging, a channel's tag in any state is that of its first state.
proof fn lemma_tag_of_first(parts: Seq<RuffleState>, i: int, k: Seq<char>)
    requires
        one_tagging(parts),
        0 <= i < parts.len(),
        forall|h: int| 0 <= h < parts.len() ==> (#[trigger] parts[h]).wf(),
        parts[i].channel_table()@.contains_key(k),
    ensures
        united_channels(parts, parts.len() as int).contains_key(k),
        united_channels(parts, parts.len() as int)[k].tag@ == parts[i].channel_table()@[k].tag@,
{
    let f = lemma_first_carrier(parts, k, i);
    lemma_first_tag(parts, parts.len() as int, k, f);
    if f < i {
        lemma_first_tag(parts, i, k, f);
        let s = parts[i].channel_table().sequence();
        assert(parts[i].wf());
        assert(holds_key(s, k));
        let j = position(s, k);
        assert(s[j].0@ == k);
        lemma_entry(s, j);
        assert(!retags(parts, i, j));
    }
}

proof fn lemma_orientation_pairwise(parts: Seq<RuffleState>)
    requires
        forall|i: int| 0 <= i < parts.len() ==> (#[trigger] parts[i]).wf(),
    ensures
        one_orientation(parts) <==> forall|i: int, j: int|
            #![trigger parts[i], parts[j]]
            0 <= i < parts.len() && 0 <= j < parts.len() ==> directions_agree(parts[i], parts[j]),
{
    if one_orientation(parts) {
        assert forall|i: int, j: int|
            #![trigger parts[i], parts[j]]
            0 <= i < parts.len() && 0 <= j < parts.len() implies directions_agree(
            parts[i],
            parts[j],
        ) by {
            assert forall|k: Seq<char>| #[trigger]
                parts[i].stats().directions@.contains_key(k)
                    && parts[j].stats().directions@.contains_key(
                    k,
                ) implies parts[i].stats().directions@[k] == parts[j].stats().directions@[k] by {
                lemma_direction_of_first(parts, i, k);
                lemma_direction_of_first(parts, j, k);
            }
        }
    }
    if forall|i: int, j: int|
        #![trigger parts[i], parts[j]]
        0 <= i < parts.len() && 0 <= j < parts.len() ==> directions_agree(parts[i], parts[j]) {
        assert forall|i: int, j: int| !#[trigger] turns(parts, i, j) by {
            if turns(parts, i, j) {
                let s = parts[i].stats().directions.sequence();
                let k = s[j].0@;
                assert(parts[i].wf());
                lemma_entry(s, j);
                if forall|h: int|
                    0 <= h < i ==> !(#[trigger] parts[h]).stats().directions@.contains_key(k) {
                    lemma_no_direction(parts, i, k);
                }
                let h = choose|h: int|
                    0 <= h < i && (#[trigger] parts[h]).stats().directions@.contains_key(k);
                let f = lemma_first_orienter(parts, k, h);
                lemma_first_direction(parts, i, k, f);
                assert(directions_agree(parts[f], parts[i]));
                assert(parts[f].stats().directions@.contains_key(k));
            }
        }
    }
}

proof fn lemma_direction_of_first(parts: Seq<RuffleState>, i: int, k: Seq<char>)
    requires
        one_orientation(parts),
        0 <= i < parts.len(),
        forall|h: int| 0 <= h < parts.len() ==> (#[trigger] parts[h]).wf(),
        parts[i].stats().directions@.contains_key(k),
    ensures
        united_directions(parts, parts.len() as int).contains_key(k),
        united_directions(parts, parts.len() as int)[k] == parts[i].stats().directions@[k],
{
    let f = lemma_first_orienter(parts, k, i);
    lemma_first_direction(parts, parts.len() as int, k, f);
    if f < i {
        lemma_first_direction(parts, i, k, f);
        let s = parts[i].stats().directions.sequence();
        assert(parts[i].wf());
        assert(holds_key(s, k));
        let j = position(s, k);
        assert(s[j].0@ == k);
        lemma_entry(s, j);
        assert(!turns(parts, i, j));
    }
}

/// Merging a single state gives it back.
pub proof fn lemma_merge_single(state: RuffleState, merged: RuffleState)
    requires
        state.wf(),
        mergeable(seq![state]),
        merges_to(seq![state], merged),
    ensures
        same_contents(merged, state),
{
    let parts = seq![state];
    assert(parts.len() == 1 && parts[0] == state);
    assert(united_directions(parts, 0) == Map::<Seq<char>, Direction>::empty());
    assert(united_channels(parts, 0) == Map::<Seq<char>, ChannelSummary>::empty());
    assert(united_pairs(parts, 0) == Map::<(Seq<char>, Seq<char>), PairSummary>::empty());
    assert(united_directions(parts, 1) =~= state.stats().directions@);
    assert(united_channels(parts, 1) =~= state.channel_table()@);
    assert(united_pairs(parts, 1) =~= state.pair_table()@);
}

/// The effective count and the squared deviation that two states pool on a channel do not
/// depend on which of them comes first.
pub proof fn lemma_merge_of_two_commutes(a: RuffleState, b: RuffleState, key: Seq<char>)
    requires
        a.channel_table()@.contains_key(key) || b.channel_table()@.contains_key(key),
    ensures
        ({
            let x = united(a.channel_table()@, b.channel_table()@)[key];
            let y = united(b.channel_table()@, a.channel_table()@)[key];
            &&& x.separation.count == y.separation.count
            &&& x.separation.m2 == y.separation.m2
            &&& x.reference.count == y.reference.count
            &&& x.reference.m2 == y.reference.m2
        }),
{
    if a.channel_table()@.contains_key(key) && b.channel_table()@.contains_key(key) {
        let s = a.channel_table()@[key];
        let t = b.channel_table()@[key];
        lemma_merge_commutes(s.separation, t.separation);
        lemma_merge_commutes(s.reference, t.reference);
    }
}

/// Two states with the same contents are laid out identically, entry by entry.
pub proof fn lemma_same_contents_same_layout(a: RuffleState, b: RuffleState)
    requires
        same_contents(a, b),
    ensures
        a.channel_table().sequence().len() == b.channel_table().sequence().len(),
        forall|i: int|
            #![trigger a.channel_table().sequence()[i]]
            0 <= i < a.channel_table().sequence().len() ==> a.channel_table().sequence()[i].0@
                == b.channel_table().sequence()[i].0@ && a.channel_table().sequence()[i].1
                == b.channel_table().sequence()[i].1,
        a.pair_table().sequence().len() == b.pair_table().sequence().len(),
        forall|i: int|
            #![trigger a.pair_table().sequence()[i]]
            0 <= i < a.pair_table().sequence().len() ==> a.pair_table().sequence()[i].0@
                == b.pair_table().sequence()[i].0@ && a.pair_table().sequence()[i].1
                == b.pair_table().sequence()[i].1,
        a.stats().directions.sequence().len() == b.stats().directions.sequence().len(),
        forall|i: int|
            #![trigger a.stats().directions.sequence()[i]]
            0 <= i < a.stats().directions.sequence().len()
                ==> a.stats().directions.sequence()[i].0@ == b.stats().directions.sequence()[i].0@
                && a.stats().directions.sequence()[i].1 == b.stats().directions.sequence()[i].1,
{
    lemma_canonical(a.channel_table().sequence(), b.channel_table().sequence());
    lemma_canonical(a.pair_table().sequence(), b.pair_table().sequence());
    lemma_canonical(a.stats().directions.sequence(), b.stats().directions.sequence());
}

/// The distance between two baselines does not depend on which of them comes first.
pub proof fn lemma_distance_symmetric(a: MeanVar, b: MeanVar)
    ensures
        distance(a, b) == distance(b, a),
{
    lemma_add_commutes(a.spread(), b.spread());
    crate::double::lemma_difference_symmetric(a.mean, b.mean);
}

/// A baseline with a finite mean is at no distance from itself.
pub proof fn lemma_distance_to_itself(a: MeanVar)
    requires
        a.mean.finite(),
    ensures
        distance(a, a) == fzero(),
{
    assert(fabs(fsub(a.mean, a.mean)) == fzero()) by {
        reveal(fadd);
        lemma_magnitude_sign(0);
    }
    let pooled_std = froot(fdiv(fadd(a.spread(), a.spread()), fcount(2)));
    if pooled_std.finite() && flt(fzero(), pooled_std) {
        lemma_zero_div(pooled_std);
        crate::double::lemma_count_finite(1_000_000);
    }
}

/// A state whose means are finite diverges from itself by nothing.
pub proof fn lemma_no_divergence_from_itself(a: RuffleState, key: Seq<char>)
    requires
        a.channel_table()@.contains_key(key),
        a.channel_table()@[key].separation.mean.finite(),
        a.channel_table()@[key].reference.mean.finite(),
    ensures
        gaps(a, a).contains_key(key),
        gaps(a, a)[key] == fzero(),
{
    lemma_distance_to_itself(a.channel_table()@[key].separation);
    lemma_distance_to_itself(a.channel_table()@[key].reference);
}

/// The divergence between two states does not depend on which of them comes first.
pub proof fn lemma_divergence_symmetric(a: RuffleState, b: RuffleState)
    ensures
        gaps(a, b) == gaps(b, a),
{
    assert forall|k: Seq<char>| gaps(a, b).contains_key(k) implies #[trigger] gaps(a, b)[k] == gaps(
        b,
        a,
    )[k] by {
        let x = a.channel_table()@[k];
        let y = b.channel_table()@[k];
        lemma_distance_symmetric(x.separation, y.separation);
        lemma_distance_symmetric(x.reference, y.reference);
    }
    assert(gaps(a, b) =~= gaps(b, a));
}

/// The divergence of a merge reports, for every channel that two of the states carry, a
/// distance at least as large as the one between them.
pub proof fn lemma_drift_covers(parts: Seq<RuffleState>, i: int, j: int, a: int, b: int, key: Seq<char>)
    requires
        0 <= i <= parts.len(),
        0 <= j <= parts.len(),
        0 <= a < b < parts.len(),
        a < i || (a == i && b < j),
        parts[a].channel_table()@.contains_key(key),
        parts[b].channel_table()@.contains_key(key),
    ensures
        drift(parts, i, j).contains_key(key),
        !flt(drift(parts, i, j)[key], gaps(parts[a], parts[b])[key]),
    decreases i, j,
{
    lemma_drift_known(parts, i, j, key);
    if j > i + 1 {
        let before = drift(parts, i, j - 1);
        let last = gaps(parts[i], parts[j - 1]);
        lemma_drift_known(parts, i, j - 1, key);
        if a == i && b == j - 1 {
            if before.contains_key(key) {
                lemma_gap_bounded(parts[i], parts[j - 1], key);
            }
        } else {
            lemma_drift_covers(parts, i, j - 1, a, b, key);
            if last.contains_key(key) {
                lemma_gap_bounded(parts[i], parts[j - 1], key);
                lemma_gap_bounded(parts[a], parts[b], key);
            }
        }
    } else {
        lemma_drift_covers(parts, i - 1, parts.len() as int, a, b, key);
    }
}

/// No reported distance is anything but a number.
proof fn lemma_drift_known(parts: Seq<RuffleState>, i: int, j: int, key: Seq<char>)
    requires
        0 <= i <= parts.len(),
        0 <= j <= parts.len(),
    ensures
        drift(parts, i, j).contains_key(key) ==> !drift(parts, i, j)[key].nan(),
    decreases i, j,
{
    if j > i + 1 {
        lemma_drift_known(parts, i, j - 1, key);
        if gaps(parts[i], parts[j - 1]).contains_key(key) {
            lemma_gap_bounded(parts[i], parts[j - 1], key);
        }
    } else if i > 0 {
        lemma_drift_known(parts, i - 1, parts.len() as int, key);
    }
}

/// A reported distance is finite, not negative, and at most the ceiling.
pub proof fn lemma_gap_bounded(a: RuffleState, b: RuffleState, key: Seq<char>)
    requires
        gaps(a, b).contains_key(key),
    ensures
        gaps(a, b)[key].finite(),
        !gaps(a, b)[key].negative(),
        !flt(crate::state::divergence_cap(), gaps(a, b)[key]),
{
    let x = a.channel_table()@[key];
    let y = b.channel_table()@[key];
    lemma_distance_bounded(x.separation, y.separation);
    lemma_distance_bounded(x.reference, y.reference);
}

/// After a rename nothing is left under the old name: no summary, no orientation, no pair.
pub proof fn lemma_rekey_leaves_nothing(
    before: RuffleState,
    from: Seq<char>,
    to: Seq<char>,
    after: RuffleState,
)
    requires
        before.wf(),
        from != to,
        rekeyed(before, from, to, after),
    ensures
        !after.channel_table()@.contains_key(from),
        !after.stats().directions@.contains_key(from),
        forall|pair: (Seq<char>, Seq<char>)| #[trigger]
            after.pair_table()@.contains_key(pair) ==> !mentions(pair, from),
{
    let s = before.pair_table().sequence();
    let n = s.len() as int;
    let listed = mentioning(s, n, from);
    assert forall|pair: (Seq<char>, Seq<char>)| #[trigger]
        after.pair_table()@.contains_key(pair) implies !mentions(pair, from) by {
        if mentions(pair, from) {
            lemma_renamed_sources(
                before.pair_table()@,
                listed,
                listed.len() as int,
                from,
                to,
                pair,
            );
            // An old pair that mentions the name is listed, and so was moved away.
            assert(holds_key(s, pair));
            let p = position(s, pair);
            assert(s[p].0@ == pair);
            lemma_mentioning_lists(s, n, from, p);
            let h = choose|h: int| 0 <= h < listed.len() && listed[h] == pair;
            lemma_renamed_gone(before.pair_table()@, listed, listed.len() as int, from, to, h);
        }
    }
}

pub proof fn lemma_mentioning_lists(
    s: Seq<(crate::keys::UnorderedPair<String>, PairSummary)>,
    n: int,
    name: Seq<char>,
    p: int,
)
    requires
        0 <= p < n <= s.len(),
        mentions(s[p].0@, name),
    ensures
        mentioning(s, n, name).contains(s[p].0@),
    decreases n,
{
    if p == n - 1 {
        let l = mentioning(s, n, name);
        assert(l[l.len() - 1] == s[p].0@);
    } else {
        lemma_mentioning_lists(s, n - 1, name, p);
        let l = mentioning(s, n - 1, name);
        let h = choose|h: int| 0 <= h < l.len() && l[h] == s[p].0@;
        assert(mentioning(s, n, name)[h] == s[p].0@);
    }
}

/// A renamed pair does not mention the old name.
pub proof fn lemma_renamed_clean(pair: (Seq<char>, Seq<char>), from: Seq<char>, to: Seq<char>)
    requires
        from != to,
    ensures
        !mentions(renamed_pair(pair, from, to), from),
{
}

/// A pair that mentions the old name can only be one that was there before.
proof fn lemma_renamed_sources(
    m: Map<(Seq<char>, Seq<char>), PairSummary>,
    listed: Seq<(Seq<char>, Seq<char>)>,
    n: int,
    from: Seq<char>,
    to: Seq<char>,
    pair: (Seq<char>, Seq<char>),
)
    requires
        from != to,
        0 <= n <= listed.len(),
        renamed_pairs(m, listed, n, from, to).contains_key(pair),
        mentions(pair, from),
    ensures
        m.contains_key(pair),
    decreases n,
{
    if n > 0 {
        lemma_renamed_clean(listed[n - 1], from, to);
        lemma_renamed_sources(m, listed, n - 1, from, to, pair);
    }
}

/// A listed pair is gone once it has been moved.
proof fn lemma_renamed_gone(
    m: Map<(Seq<char>, Seq<char>), PairSummary>,
    listed: Seq<(Seq<char>, Seq<char>)>,
    n: int,
    from: Seq<char>,
    to: Seq<char>,
    h: int,
)
    requires
        from != to,
        0 <= h < n <= listed.len(),
        mentions(listed[h], from),
    ensures
        !renamed_pairs(m, listed, n, from, to).contains_key(listed[h]),
    decreases n,
{
    lemma_renamed_clean(listed[n - 1], from, to);
    if h < n - 1 {
        lemma_renamed_gone(m, listed, n - 1, from, to, h);
    }
}

/// A name that occurs nowhere in a state.
pub open spec fn fresh(state: RuffleState, name: Seq<char>) -> bool {
    &&& !state.channel_table()@.contains_key(name)
    &&& !state.stats().directions@.contains_key(name)
    &&& forall|k: (Seq<char>, Seq<char>)| #[trigger]
        state.pair_table()@.contains_key(k) ==> !mentions(k, name)
}

/// Renaming to a fresh name takes distinct canonical pairs to distinct pairs, and renaming
/// back undoes it.
proof fn lemma_renamed_back(pair: (Seq<char>, Seq<char>), from: Seq<char>, to: Seq<char>)
    requires
        from != to,
        pair == canonical(pair.0, pair.1),
        !mentions(pair, to),
    ensures
        renamed_pair(renamed_pair(pair, from, to), to, from) == pair,
        renamed_pair(pair, from, to) == canonical(
            renamed_pair(pair, from, to).0,
            renamed_pair(pair, from, to).1,
        ),
        !mentions(pair, from) ==> renamed_pair(pair, from, to) == pair,
{
    let a = crate::state::renamed(pair.0, from, to);
    let b = crate::state::renamed(pair.1, from, to);
    crate::ordered::lemma_text_order(a, b, a);
    crate::ordered::lemma_text_order(b, a, b);
    crate::ordered::lemma_text_order(pair.0, pair.1, pair.0);
    crate::ordered::lemma_text_order(pair.1, pair.0, pair.1);
    crate::keys::lemma_canonical_symmetric(pair.0, pair.1);
}

pub proof fn lemma_mentioning_members(
    s: Seq<(crate::keys::UnorderedPair<String>, PairSummary)>,
    n: int,
    name: Seq<char>,
)
    requires
        crate::ordered::increasing(s),
        0 <= n <= s.len(),
    ensures
        mentioning(s, n, name).no_duplicates(),
        forall|h: int|
            0 <= h < mentioning(s, n, name).len() ==> mentions(
                #[trigger] mentioning(s, n, name)[h],
                name,
            ) && exists|p: int| 0 <= p < n && (#[trigger] s[p]).0@ == mentioning(s, n, name)[h],
    decreases n,
{
    if n > 0 {
        lemma_mentioning_members(s, n - 1, name);
        let l = mentioning(s, n - 1, name);
        let m = mentioning(s, n, name);
        let k = s[n - 1].0@;
        assert forall|h: int| 0 <= h < l.len() implies l[h] != k by {
            let p = choose|p: int| 0 <= p < n - 1 && (#[trigger] s[p]).0@ == l[h];
            assert(<crate::keys::UnorderedPair<String> as MapKey>::before(s[p].0@, s[n - 1].0@));
            <crate::keys::UnorderedPair<String> as MapKey>::lemma_order(k, k, k);
        }
        assert forall|h: int| 0 <= h < m.len() implies mentions(#[trigger] m[h], name) && exists|
            p: int,
        |
            0 <= p < n && (#[trigger] s[p]).0@ == m[h] by {
            if h < l.len() {
                assert(m[h] == l[h]);
                let p = choose|p: int| 0 <= p < n - 1 && (#[trigger] s[p]).0@ == l[h];
                assert(s[p].0@ == m[h]);
            } else {
                assert(s[n - 1].0@ == m[h]);
            }
        }
    }
}

/// What the first `n` moves of a rename to a fresh name have done.
proof fn lemma_renamed_progress(
    m: Map<(Seq<char>, Seq<char>), PairSummary>,
    listed: Seq<(Seq<char>, Seq<char>)>,
    n: int,
    from: Seq<char>,
    to: Seq<char>,
)
    requires
        from != to,
        0 <= n <= listed.len(),
        listed.no_duplicates(),
        pairs_canonical(m),
        forall|k: (Seq<char>, Seq<char>)| #[trigger] m.contains_key(k) ==> !mentions(k, to),
        forall|h: int|
            0 <= h < listed.len() ==> m.contains_key(#[trigger] listed[h]) && mentions(
                listed[h],
                from,
            ),
    ensures
        ({
            let r = renamed_pairs(m, listed, n, from, to);
            &&& forall|h: int|
                0 <= h < n ==> r.contains_key(renamed_pair(#[trigger] listed[h], from, to))
                    && r[renamed_pair(listed[h], from, to)] == m[listed[h]]
            &&& forall|h: int|
                n <= h < listed.len() ==> r.contains_key(#[trigger] listed[h]) && r[listed[h]]
                    == m[listed[h]]
            &&& forall|k: (Seq<char>, Seq<char>)|
                m.contains_key(k) && !mentions(k, from) ==> #[trigger] r.contains_key(k) && r[k]
                    == m[k]
            &&& forall|k: (Seq<char>, Seq<char>)| #[trigger]
                r.contains_key(k) ==> m.contains_key(k) || exists|h: int|
                    0 <= h < n && k == renamed_pair(#[trigger] listed[h], from, to)
        }),
    decreases n,
{
    if n > 0 {
        lemma_renamed_progress(m, listed, n - 1, from, to);
        let q = renamed_pairs(m, listed, n - 1, from, to);
        let r = renamed_pairs(m, listed, n, from, to);
        let old_pair = listed[n - 1];
        let new_pair = renamed_pair(old_pair, from, to);
        lemma_renamed_back(old_pair, from, to);
        lemma_renamed_clean(old_pair, from, to);
        assert(mentions(new_pair, to));
        assert(q.contains_key(old_pair));
        // The new pair is not there yet.
        if q.contains_key(new_pair) {
            if m.contains_key(new_pair) {
                assert(!mentions(new_pair, to));
            } else {
                let h = choose|h: int|
                    0 <= h < n - 1 && new_pair == renamed_pair(#[trigger] listed[h], from, to);
                assert(m.contains_key(listed[h]));
                lemma_renamed_back(listed[h], from, to);
                assert(listed[h] == listed[n - 1]);
            }
        }
        assert(r == q.remove(old_pair).insert(new_pair, m[old_pair]));
        assert forall|h: int| 0 <= h < n implies r.contains_key(
            renamed_pair(#[trigger] listed[h], from, to),
        ) && r[renamed_pair(listed[h], from, to)] == m[listed[h]] by {
            if h < n - 1 {
                let k = renamed_pair(listed[h], from, to);
                lemma_renamed_clean(listed[h], from, to);
                assert(m.contains_key(listed[h]));
                lemma_renamed_back(listed[h], from, to);
                if k == new_pair {
                    assert(listed[h] == listed[n - 1]);
                }
                assert(q.contains_key(k));
            }
        }
        assert forall|h: int| n <= h < listed.len() implies r.contains_key(#[trigger] listed[h])
            && r[listed[h]] == m[listed[h]] by {
            assert(listed[h] != listed[n - 1]);
            assert(q.contains_key(listed[h]));
            assert(m.contains_key(listed[h]));
        }
        assert forall|k: (Seq<char>, Seq<char>)|
            m.contains_key(k) && !mentions(k, from) implies #[trigger] r.contains_key(k) && r[k]
            == m[k] by {
            assert(q.contains_key(k));
        }
        assert forall|k: (Seq<char>, Seq<char>)| #[trigger] r.contains_key(k) implies m.contains_key(
            k,
        ) || exists|h: int| 0 <= h < n && k == renamed_pair(#[trigger] listed[h], from, to) by {
            if k == new_pair {
                assert(k == renamed_pair(listed[n - 1], from, to));
            } else {
                assert(q.contains_key(k));
                if !m.contains_key(k) {
                    let h = choose|h: int|
                        0 <= h < n - 1 && k == renamed_pair(#[trigger] listed[h], from, to);
                    assert(k == renamed_pair(listed[h], from, to));
                }
            }
        }
    }
}

/// Renaming a channel to a fresh name moves everything that it has and touches nothing else:
/// its summary, its orientation, and every pair that mentions it.
pub proof fn lemma_rekey_to_fresh(
    before: RuffleState,
    from: Seq<char>,
    to: Seq<char>,
    after: RuffleState,
)
    requires
        before.wf(),
        from != to,
        fresh(before, to),
        pairs_canonical(before.pair_table()@),
        rekeyed(before, from, to, after),
    ensures
        before.channel_table()@.contains_key(from) ==> after.channel_table()@
            == before.channel_table()@.remove(from).insert(to, before.channel_table()@[from]),
        before.stats().directions@.contains_key(from) ==> after.stats().directions@
            == before.stats().directions@.remove(from).insert(
            to,
            before.stats().directions@[from],
        ),
        forall|k: (Seq<char>, Seq<char>)| #[trigger]
            before.pair_table()@.contains_key(k) ==> after.pair_table()@.contains_key(
                renamed_pair(k, from, to),
            ) && after.pair_table()@[renamed_pair(k, from, to)] == before.pair_table()@[k],
        forall|k: (Seq<char>, Seq<char>)| #[trigger]
            after.pair_table()@.contains_key(k) ==> exists|o: (Seq<char>, Seq<char>)| #[trigger]
                before.pair_table()@.contains_key(o) && k == renamed_pair(o, from, to),
{
    let s = before.pair_table().sequence();
    let n = s.len() as int;
    let m = before.pair_table()@;
    let listed = mentioning(s, n, from);
    let r = after.pair_table()@;
    lemma_mentioning_members(s, n, from);
    assert forall|h: int| 0 <= h < listed.len() implies m.contains_key(#[trigger] listed[h])
        && mentions(listed[h], from) by {
        let p = choose|p: int| 0 <= p < n && (#[trigger] s[p]).0@ == listed[h];
        lemma_entry(s, p);
    }
    lemma_renamed_progress(m, listed, listed.len() as int, from, to);
    assert forall|k: (Seq<char>, Seq<char>)| #[trigger] m.contains_key(k) implies r.contains_key(
        renamed_pair(k, from, to),
    ) && r[renamed_pair(k, from, to)] == m[k] by {
        lemma_renamed_back(k, from, to);
        if mentions(k, from) {
            assert(holds_key(s, k));
            let p = position(s, k);
            assert(s[p].0@ == k);
            lemma_mentioning_lists(s, n, from, p);
            let h = choose|h: int| 0 <= h < listed.len() && listed[h] == k;
            assert(r.contains_key(renamed_pair(listed[h], from, to)));
        } else {
            assert(r.contains_key(k));
        }
    }
    lemma_rekey_leaves_nothing(before, from, to, after);
    assert forall|k: (Seq<char>, Seq<char>)| #[trigger] r.contains_key(k) implies exists|
        o: (Seq<char>, Seq<char>),
    | #[trigger] m.contains_key(o) && k == renamed_pair(o, from, to) by {
        if m.contains_key(k) {
            lemma_renamed_back(k, from, to);
            assert(!mentions(k, from));
        } else {
            let h = choose|h: int|
                0 <= h < listed.len() && k == renamed_pair(#[trigger] listed[h], from, to);
            assert(m.contains_key(listed[h]));
        }
    }
}

/// Renaming a channel to a fresh name and back gives the state back.
pub proof fn lemma_rekey_round_trip(
    before: RuffleState,
    from: Seq<char>,
    to: Seq<char>,
    middle: RuffleState,
    after: RuffleState,
)
    requires
        before.wf(),
        from != to,
        fresh(before, to),
        pairs_canonical(before.pair_table()@),
        rekeyed(before, from, to, middle),
        rekeyed(middle, to, from, after),
    ensures
        same_contents(after, before),
{
    lemma_rekey_to_fresh(before, from, to, middle);
    lemma_rekey_leaves_nothing(before, from, to, middle);
    let m = before.pair_table()@;
    let q = middle.pair_table()@;
    let r = after.pair_table()@;
    assert forall|k: (Seq<char>, Seq<char>)| #[trigger] q.contains_key(k) implies k == canonical(
        k.0,
        k.1,
    ) by {
        let o = choose|o: (Seq<char>, Seq<char>)| #[trigger]
            m.contains_key(o) && k == renamed_pair(o, from, to);
        lemma_renamed_back(o, from, to);
    }
    assert(fresh(middle, from));
    lemma_rekey_to_fresh(middle, to, from, after);
    assert forall|k: (Seq<char>, Seq<char>)| #[trigger] r.contains_key(k) == m.contains_key(k) by {
        if m.contains_key(k) {
            lemma_renamed_back(k, from, to);
            assert(q.contains_key(renamed_pair(k, from, to)));
        }
        if r.contains_key(k) {
            let o = choose|o: (Seq<char>, Seq<char>)| #[trigger]
                q.contains_key(o) && k == renamed_pair(o, to, from);
            let p = choose|p: (Seq<char>, Seq<char>)| #[trigger]
                m.contains_key(p) && o == renamed_pair(p, from, to);
            lemma_renamed_back(p, from, to);
        }
    }
    assert forall|k: (Seq<char>, Seq<char>)| r.contains_key(k) implies #[trigger] r[k] == m[k] by {
        assert(m.contains_key(k));
        lemma_renamed_back(k, from, to);
        assert(q.contains_key(renamed_pair(k, from, to)));
    }
    assert(r =~= m);
    assert(after.channel_table()@ =~= before.channel_table()@);
    assert(after.stats().directions@ =~= before.stats().directions@);
}

/// Decay keeps every channel and pair, with its tag and its means.
pub proof fn lemma_decay_keeps_means(s: ChannelSummary, factor: Double)
    ensures
        decayed_channel(s, factor).separation.mean == s.separation.mean,
        decayed_channel(s, factor).reference.mean == s.reference.mean,
        decayed_channel(s, factor).tag == s.tag,
{
}

} // verus!
