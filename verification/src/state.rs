//! Persistent state: the single mergeable object.
//!
//! Everything that is persisted is a confidence-weighted summary plus the identifiers
//! needed to merge it safely. The merge gates on format version, statistic fingerprint,
//! and the required per-channel tag, reports an advisory divergence alongside, and is
//! paired with the safe [`rekey`](RuffleState::rekey) rename and the
//! [`decay`](RuffleState::decay) of confidence.
use crate::double::{
    fabs, fadd, fcount, fdiv, feq, flt, fmax, fmin, fmul, froot, fsub, fzero, Double,
};
use crate::error::Mismatch;
use crate::keys::{canonical, text_pair, StatFingerprint, UnorderedPair, STAT_VERSION};
use crate::ordered::{lemma_canonical, lemma_entry, map_of, MapKey, OrderedMap};
use crate::pooling::{
    duplicate_map, lemma_mapped, lemma_prefix_map, move_entry, moved, unite, united, Pool,
};
use crate::score::Direction;
use crate::summary::{
    decay_factor, decayed, empty_summary, kept_fraction, pooled, MeanVar,
};
use vstd::prelude::*;

verus! {

/// The schema version that this library writes.
pub const FORMAT_VERSION: u32 = 2;

/// The persistent statistics kept for one channel.
#[derive(Clone, Debug, PartialEq)]
pub struct ChannelSummary {
    /// The baseline for this channel's separation between top and bulk scores.
    pub separation: MeanVar,
    /// The reference for what a good score looks like on this channel.
    pub reference: MeanVar,
    /// The model-version tag identifying which model produced this channel's scores.
    pub tag: String,
}

impl ChannelSummary {
    /// An empty summary carrying only the required tag.
    pub fn new(tag: String) -> (s: ChannelSummary)
        ensures
            s.separation == empty_summary(),
            s.reference == empty_summary(),
            s.tag == tag,
    {
        ChannelSummary { separation: MeanVar::new(), reference: MeanVar::new(), tag }
    }

    /// A summary with a pre-seeded good-score reference.
    pub fn with_reference(tag: String, reference: MeanVar) -> (s: ChannelSummary)
        ensures
            s.separation == empty_summary(),
            s.reference == reference,
            s.tag == tag,
    {
        ChannelSummary { separation: MeanVar::new(), reference, tag }
    }
}

impl Pool for ChannelSummary {
    open spec fn combined(a: ChannelSummary, b: ChannelSummary) -> ChannelSummary {
        ChannelSummary {
            separation: pooled(a.separation, b.separation),
            reference: pooled(a.reference, b.reference),
            tag: a.tag,
        }
    }

    fn pool_in(&mut self, other: &ChannelSummary) {
        self.separation.merge_in(&other.separation);
        self.reference.merge_in(&other.reference);
    }

    fn copied(&self) -> (copy: ChannelSummary) {
        ChannelSummary {
            separation: self.separation,
            reference: self.reference,
            tag: self.tag.clone(),
        }
    }
}

/// The persistent statistics kept for one pair of channels: their accumulated redundancy
/// correlation plus how many anchor refreshes back it.
#[derive(Clone, Copy, Debug, PartialEq)]
pub struct PairSummary {
    /// The accumulated redundancy correlation between the two channels.
    pub redundancy: MeanVar,
    /// How many anchor refreshes contributed to `redundancy`. Fractional to support decay.
    pub refreshes: Double,
}

impl PairSummary {
    /// An empty pair summary.
    pub fn new() -> (s: PairSummary)
        ensures
            s.redundancy == empty_summary(),
            s.refreshes == fzero(),
    {
        PairSummary { redundancy: MeanVar::new(), refreshes: Double::zero() }
    }
}

impl Default for PairSummary {
    fn default() -> (s: PairSummary)
        ensures
            s.redundancy == empty_summary(),
            s.refreshes == fzero(),
    {
        PairSummary::new()
    }
}

impl Pool for PairSummary {
    open spec fn combined(a: PairSummary, b: PairSummary) -> PairSummary {
        PairSummary {
            redundancy: pooled(a.redundancy, b.redundancy),
            refreshes: fadd(a.refreshes, b.refreshes),
        }
    }

    fn pool_in(&mut self, other: &PairSummary) {
        self.redundancy.merge_in(&other.redundancy);
        self.refreshes = self.refreshes + other.refreshes;
    }

    fn copied(&self) -> (copy: PairSummary) {
        *self
    }
}

impl Pool for Direction {
    open spec fn combined(a: Direction, b: Direction) -> Direction {
        a
    }

    fn pool_in(&mut self, other: &Direction) {
    }

    fn copied(&self) -> (copy: Direction) {
        *self
    }
}

/// A distance pools to the larger one.
impl Pool for Double {
    open spec fn combined(a: Double, b: Double) -> Double {
        if flt(a, b) {
            b
        } else {
            a
        }
    }

    fn pool_in(&mut self, other: &Double) {
        if self.lt(*other) {
            *self = *other;
        }
    }

    fn copied(&self) -> (copy: Double) {
        *self
    }
}

/// The persistent statistics: a confidence-weighted summary per channel and per channel
/// pair, plus the versioning needed to merge two of them safely.
///
/// Maps are kept in key order, so two states with identical contents are laid out
/// identically.
#[derive(Clone, Debug, PartialEq)]
pub struct RuffleState {
    format_version: u32,
    fingerprint: StatFingerprint,
    /// Per-channel summaries, keyed by the stable join handle.
    pub channels: OrderedMap<String, ChannelSummary>,
    /// Per-pair coupling summaries, keyed by the canonical unordered channel pair.
    pub pairs: OrderedMap<UnorderedPair<String>, PairSummary>,
}

/// An advisory standardized distance between two states' per-channel summaries.
#[derive(Clone, Debug, PartialEq)]
#[non_exhaustive]
pub struct Divergence {
    /// Per-channel standardized distance between the two states.
    pub per_channel: OrderedMap<String, Double>,
    /// The largest per-channel distance.
    pub max: Double,
}

/// How [`RuffleState::merge`] treats incompatible inputs.
#[derive(Clone, Copy, Debug, PartialEq, Eq, Structural)]
#[non_exhaustive]
pub enum MergePolicy {
    /// Refuses on any format, fingerprint, or tag mismatch.
    Strict,
}

impl Default for MergePolicy {
    fn default() -> (p: MergePolicy)
        ensures
            p == MergePolicy::Strict,
    {
        MergePolicy::Strict
    }
}

/// The finite ceiling on a per-channel divergence, a million.
pub open spec fn divergence_cap() -> Double {
    fcount(1_000_000)
}

/// The standardized distance between two baselines: the difference of the means over the
/// pooled deviation, held to the ceiling. Without a usable spread, equal means are at no
/// distance and others at the ceiling.
pub open spec fn distance(a: MeanVar, b: MeanVar) -> Double {
    let pooled_std = froot(fdiv(fadd(a.spread(), b.spread()), fcount(2)));
    let mean_diff = fabs(fsub(a.mean, b.mean));
    if pooled_std.finite() && flt(fzero(), pooled_std) {
        fmin(fdiv(mean_diff, pooled_std), divergence_cap())
    } else if feq(mean_diff, fzero()) {
        fzero()
    } else {
        divergence_cap()
    }
}

/// The distance between two channels: the larger one of their two baselines.
pub open spec fn channel_distance(a: ChannelSummary, b: ChannelSummary) -> Double {
    fmax(distance(a.separation, b.separation), distance(a.reference, b.reference))
}

/// The distances of all channels that two states share.
pub open spec fn gaps(a: RuffleState, b: RuffleState) -> Map<Seq<char>, Double> {
    Map::new(
        |k: Seq<char>| a.channel_table()@.contains_key(k) && b.channel_table()@.contains_key(k),
        |k: Seq<char>| channel_distance(a.channel_table()@[k], b.channel_table()@[k]),
    )
}

/// The largest of the first `n` distances, and zero where none is above it.
pub open spec fn largest(s: Seq<(String, Double)>, n: int) -> Double
    decreases n,
{
    if n <= 0 {
        fzero()
    } else {
        Double::combined(largest(s, n - 1), s[n - 1].1)
    }
}

/// The states behind a list of references.
pub open spec fn behind(refs: Seq<&RuffleState>) -> Seq<RuffleState> {
    Seq::new(refs.len(), |i: int| *refs[i])
}

/// The orientations of the first `n` states, united.
pub open spec fn united_directions(parts: Seq<RuffleState>, n: int) -> Map<Seq<char>, Direction>
    decreases n,
{
    if n <= 0 {
        Map::empty()
    } else {
        united(united_directions(parts, n - 1), parts[n - 1].stats().directions@)
    }
}

/// The channels of the first `n` states, shared ones pooled.
pub open spec fn united_channels(parts: Seq<RuffleState>, n: int) -> Map<
    Seq<char>,
    ChannelSummary,
>
    decreases n,
{
    if n <= 0 {
        Map::empty()
    } else {
        united(united_channels(parts, n - 1), parts[n - 1].channel_table()@)
    }
}

/// The pairs of the first `n` states, shared ones pooled.
pub open spec fn united_pairs(parts: Seq<RuffleState>, n: int) -> Map<
    (Seq<char>, Seq<char>),
    PairSummary,
>
    decreases n,
{
    if n <= 0 {
        Map::empty()
    } else {
        united(united_pairs(parts, n - 1), parts[n - 1].pair_table()@)
    }
}

/// The distances between the states before `i` and all later ones, and between the state
/// at `i` and the later ones before `j`; a channel keeps its largest.
pub open spec fn drift(parts: Seq<RuffleState>, i: int, j: int) -> Map<Seq<char>, Double>
    decreases i, j,
{
    if 0 <= i && j > i + 1 {
        united(drift(parts, i, j - 1), gaps(parts[i], parts[j - 1]))
    } else if i > 0 {
        drift(parts, i - 1, parts.len() as int)
    } else {
        Map::empty()
    }
}

/// The state at `i` has another format version than the first.
pub open spec fn other_format(parts: Seq<RuffleState>, i: int) -> bool {
    0 <= i < parts.len() && parts[i].version() != parts[0].version()
}

/// The state at `i` has another statistic version or baseline mode than the first.
pub open spec fn other_statistics(parts: Seq<RuffleState>, i: int) -> bool {
    0 <= i < parts.len() && (parts[i].stats().stat_version != parts[0].stats().stat_version
        || parts[i].stats().baseline_mode != parts[0].stats().baseline_mode)
}

/// A state orients its channel at position `j` otherwise than `seen` does.
pub open spec fn turned(seen: Map<Seq<char>, Direction>, part: RuffleState, j: int) -> bool {
    let s = part.stats().directions.sequence();
    0 <= j < s.len() && seen.contains_key(s[j].0@) && seen[s[j].0@] != s[j].1
}

/// The state at `i` turns its channel at position `j` around.
pub open spec fn turns(parts: Seq<RuffleState>, i: int, j: int) -> bool {
    0 <= i < parts.len() && turned(united_directions(parts, i), parts[i], j)
}

/// A state tags its channel at position `j` otherwise than `seen` does.
pub open spec fn retagged(seen: Map<Seq<char>, ChannelSummary>, part: RuffleState, j: int) -> bool {
    let s = part.channel_table().sequence();
    0 <= j < s.len() && seen.contains_key(s[j].0@) && seen[s[j].0@].tag@ != s[j].1.tag@
}

/// The state at `i` tags its channel at position `j` otherwise.
pub open spec fn retags(parts: Seq<RuffleState>, i: int, j: int) -> bool {
    0 <= i < parts.len() && retagged(united_channels(parts, i), parts[i], j)
}

/// The place `(i, j)` comes before the place `(a, b)`.
pub open spec fn earlier(i: int, j: int, a: int, b: int) -> bool {
    i < a || (i == a && j < b)
}

/// All states have this library's format version.
pub open spec fn one_format(parts: Seq<RuffleState>) -> bool {
    parts[0].version() == FORMAT_VERSION && forall|i: int| !#[trigger] other_format(parts, i)
}

/// All states have this library's statistic version and one baseline mode.
pub open spec fn one_statistic(parts: Seq<RuffleState>) -> bool {
    parts[0].stats().stat_version == STAT_VERSION && forall|i: int|
        !#[trigger] other_statistics(parts, i)
}

/// No two states disagree on the orientation of a channel.
pub open spec fn one_orientation(parts: Seq<RuffleState>) -> bool {
    forall|i: int, j: int| !#[trigger] turns(parts, i, j)
}

/// No two states disagree on the tag of a channel.
pub open spec fn one_tagging(parts: Seq<RuffleState>) -> bool {
    forall|i: int, j: int| !#[trigger] retags(parts, i, j)
}

/// The states can be merged.
pub open spec fn mergeable(parts: Seq<RuffleState>) -> bool {
    &&& parts.len() > 0
    &&& one_format(parts)
    &&& one_statistic(parts)
    &&& one_orientation(parts)
    &&& one_tagging(parts)
}

/// The refusal that states that cannot be merged meet: the first gate that fails, and in
/// it the first state and channel.
pub open spec fn refusal(parts: Seq<RuffleState>, e: Mismatch) -> bool {
    if parts.len() == 0 {
        e == Mismatch::Empty
    } else if parts[0].version() != FORMAT_VERSION {
        e == (Mismatch::FormatVersion { left: FORMAT_VERSION, right: parts[0].version() })
    } else if parts[0].stats().stat_version != STAT_VERSION {
        e == Mismatch::Fingerprint
    } else if !one_format(parts) {
        exists|i: int| #[trigger]
            other_format(parts, i) && (forall|h: int| h < i ==> !#[trigger] other_format(parts, h))
                && e == (Mismatch::FormatVersion {
                left: parts[0].version(),
                right: parts[i].version(),
            })
    } else if !one_statistic(parts) {
        e == Mismatch::Fingerprint
    } else if !one_orientation(parts) {
        exists|i: int, j: int| #[trigger]
            turns(parts, i, j) && (forall|a: int, b: int|
                earlier(a, b, i, j) ==> !#[trigger] turns(parts, a, b)) && e is DirectionConflict
                && e->DirectionConflict_channel@
                == parts[i].stats().directions.sequence()[j].0@
    } else {
        exists|i: int, j: int| #[trigger]
            retags(parts, i, j) && (forall|a: int, b: int|
                earlier(a, b, i, j) ==> !#[trigger] retags(parts, a, b)) && e is Tag
                && e->Tag_channel@ == parts[i].channel_table().sequence()[j].0@ && e->Tag_left@
                == united_channels(parts, i)[parts[i].channel_table().sequence()[j].0@].tag@
                && e->Tag_right@ == parts[i].channel_table().sequence()[j].1.tag@
    }
}

/// What merging gives: the union of all channels, pairs and orientations.
pub open spec fn merges_to(parts: Seq<RuffleState>, merged: RuffleState) -> bool {
    let n = parts.len() as int;
    &&& merged.wf()
    &&& merged.version() == FORMAT_VERSION
    &&& merged.stats().stat_version == STAT_VERSION
    &&& merged.stats().baseline_mode == parts[0].stats().baseline_mode
    &&& merged.stats().directions@ == united_directions(parts, n)
    &&& merged.channel_table()@ == united_channels(parts, n)
    &&& merged.pair_table()@ == united_pairs(parts, n)
}

/// Every pair is in canonical order.
pub open spec fn pairs_canonical<V>(m: Map<(Seq<char>, Seq<char>), V>) -> bool {
    forall|k: (Seq<char>, Seq<char>)| #[trigger] m.contains_key(k) ==> k == canonical(k.0, k.1)
}

/// A pair mentions a channel.
pub open spec fn mentions(pair: (Seq<char>, Seq<char>), name: Seq<char>) -> bool {
    pair.0 == name || pair.1 == name
}

/// A channel's name after `from` has become `to`.
pub open spec fn renamed(name: Seq<char>, from: Seq<char>, to: Seq<char>) -> Seq<char> {
    if name == from {
        to
    } else {
        name
    }
}

/// A pair after `from` has become `to`.
pub open spec fn renamed_pair(
    pair: (Seq<char>, Seq<char>),
    from: Seq<char>,
    to: Seq<char>,
) -> (Seq<char>, Seq<char>) {
    canonical(renamed(pair.0, from, to), renamed(pair.1, from, to))
}

/// The pairs among the first `n` entries that mention a channel, in key order.
pub open spec fn mentioning(
    s: Seq<(UnorderedPair<String>, PairSummary)>,
    n: int,
    name: Seq<char>,
) -> Seq<(Seq<char>, Seq<char>)>
    decreases n,
{
    if n <= 0 {
        Seq::empty()
    } else if mentions(s[n - 1].0@, name) {
        mentioning(s, n - 1, name).push(s[n - 1].0@)
    } else {
        mentioning(s, n - 1, name)
    }
}

/// The pair summaries after the first `n` of the listed pairs have been renamed, one after
/// the other.
pub open spec fn renamed_pairs(
    m: Map<(Seq<char>, Seq<char>), PairSummary>,
    listed: Seq<(Seq<char>, Seq<char>)>,
    n: int,
    from: Seq<char>,
    to: Seq<char>,
) -> Map<(Seq<char>, Seq<char>), PairSummary>
    decreases n,
{
    if n <= 0 {
        m
    } else {
        moved(
            renamed_pairs(m, listed, n - 1, from, to),
            listed[n - 1],
            renamed_pair(listed[n - 1], from, to),
        )
    }
}

/// What renaming a channel does to a state: its summary, its pairs and its orientation
/// move, and are pooled with what the new name already has; the orientation that stands
/// there stays.
pub open spec fn rekeyed(
    before: RuffleState,
    from: Seq<char>,
    to: Seq<char>,
    after: RuffleState,
) -> bool {
    let s = before.pair_table().sequence();
    let listed = mentioning(s, s.len() as int, from);
    &&& after.wf()
    &&& after.version() == before.version()
    &&& after.stats().stat_version == before.stats().stat_version
    &&& after.stats().baseline_mode == before.stats().baseline_mode
    &&& after.stats().directions@ == moved(before.stats().directions@, from, to)
    &&& after.channel_table()@ == moved(before.channel_table()@, from, to)
    &&& after.pair_table()@ == renamed_pairs(
        before.pair_table()@,
        listed,
        listed.len() as int,
        from,
        to,
    )
}

/// Two states hold the same versions, orientations and summaries.
pub open spec fn same_contents(a: RuffleState, b: RuffleState) -> bool {
    &&& a.wf()
    &&& b.wf()
    &&& a.version() == b.version()
    &&& a.stats().stat_version == b.stats().stat_version
    &&& a.stats().baseline_mode == b.stats().baseline_mode
    &&& a.stats().directions@ == b.stats().directions@
    &&& a.channel_table()@ == b.channel_table()@
    &&& a.pair_table()@ == b.pair_table()@
}

/// Renaming does the same to states with the same contents.
pub proof fn lemma_rekeyed_same(
    a: RuffleState,
    b: RuffleState,
    from: Seq<char>,
    to: Seq<char>,
    after: RuffleState,
)
    requires
        same_contents(a, b),
        rekeyed(a, from, to, after),
    ensures
        rekeyed(b, from, to, after),
{
    let s = a.pair_table().sequence();
    let t = b.pair_table().sequence();
    lemma_canonical(s, t);
    lemma_mentioning_same(s, t, s.len() as int, from);
}

proof fn lemma_mentioning_same(
    s: Seq<(UnorderedPair<String>, PairSummary)>,
    t: Seq<(UnorderedPair<String>, PairSummary)>,
    n: int,
    name: Seq<char>,
)
    requires
        n <= s.len(),
        s.len() == t.len(),
        forall|i: int| #![trigger s[i]] 0 <= i < s.len() ==> s[i].0@ == t[i].0@,
    ensures
        mentioning(s, n, name) == mentioning(t, n, name),
    decreases n,
{
    if n > 0 {
        assert(s[n - 1].0@ == t[n - 1].0@);
        lemma_mentioning_same(s, t, n - 1, name);
    }
}

/// Merging keeps pairs in canonical order.
pub proof fn lemma_united_pairs_canonical(parts: Seq<RuffleState>, n: int)
    requires
        0 <= n <= parts.len(),
        forall|i: int|
            0 <= i < parts.len() ==> pairs_canonical((#[trigger] parts[i]).pair_table()@),
    ensures
        pairs_canonical(united_pairs(parts, n)),
    decreases n,
{
    if n > 0 {
        lemma_united_pairs_canonical(parts, n - 1);
        assert(pairs_canonical(parts[n - 1].pair_table()@));
    }
}

/// Renaming keeps pairs in canonical order.
pub proof fn lemma_renamed_pairs_canonical(
    m: Map<(Seq<char>, Seq<char>), PairSummary>,
    listed: Seq<(Seq<char>, Seq<char>)>,
    n: int,
    from: Seq<char>,
    to: Seq<char>,
)
    requires
        0 <= n <= listed.len(),
        pairs_canonical(m),
    ensures
        pairs_canonical(renamed_pairs(m, listed, n, from, to)),
    decreases n,
{
    if n > 0 {
        lemma_renamed_pairs_canonical(m, listed, n - 1, from, to);
        let pair = listed[n - 1];
        let a = renamed(pair.0, from, to);
        let b = renamed(pair.1, from, to);
        crate::keys::lemma_canonical_twice(a, b);
    }
}

/// A channel summary with its confidence scaled down.
pub open spec fn decayed_channel(s: ChannelSummary, factor: Double) -> ChannelSummary {
    ChannelSummary {
        separation: decayed(s.separation, factor),
        reference: decayed(s.reference, factor),
        tag: s.tag,
    }
}

/// A pair summary with its confidence scaled down.
pub open spec fn decayed_pair(s: PairSummary, factor: Double) -> PairSummary {
    PairSummary {
        redundancy: decayed(s.redundancy, factor),
        refreshes: fmul(s.refreshes, kept_fraction(factor)),
    }
}

/// The standardized distance between two baselines.
pub fn standardized_distance(a: &MeanVar, b: &MeanVar) -> (d: Double)
    ensures
        d == distance(*a, *b),
        d.finite(),
        !d.negative(),
        !flt(divergence_cap(), d),
{
    let pooled_std = ((a.variance() + b.variance()) / Double::of_count(2)).sqrt();
    let mean_diff = (a.mean() - b.mean()).abs();
    let cap = Double::of_count(1_000_000);
    proof {
        lemma_distance_bounded(*a, *b);
    }
    if pooled_std.is_finite() && Double::zero().lt(pooled_std) {
        (mean_diff / pooled_std).min(cap)
    } else if mean_diff == Double::zero() {
        Double::zero()
    } else {
        cap
    }
}

/// A distance is finite, not negative, and at most the ceiling.
pub proof fn lemma_distance_bounded(a: MeanVar, b: MeanVar)
    ensures
        distance(a, b).finite(),
        !distance(a, b).negative(),
        !flt(divergence_cap(), distance(a, b)),
{
    crate::double::lemma_count_finite(1_000_000);
    let pooled_std = froot(fdiv(fadd(a.spread(), b.spread()), fcount(2)));
    let mean_diff = fabs(fsub(a.mean, b.mean));
    if pooled_std.finite() && flt(fzero(), pooled_std) {
        crate::double::lemma_quotient_sign(mean_diff, pooled_std);
    }
}

impl RuffleState {
    /// The schema version that this library writes.
    pub const FORMAT_VERSION: u32 = FORMAT_VERSION;

    /// The schema version this state was built or loaded at.
    pub closed spec fn version(&self) -> u32 {
        self.format_version
    }

    /// The statistic fingerprint this state was built or loaded with.
    pub closed spec fn stats(&self) -> StatFingerprint {
        self.fingerprint
    }

    /// The per-channel summaries.
    pub closed spec fn channel_table(&self) -> OrderedMap<String, ChannelSummary> {
        self.channels
    }

    /// The per-pair summaries.
    pub closed spec fn pair_table(&self) -> OrderedMap<UnorderedPair<String>, PairSummary> {
        self.pairs
    }

    /// All maps are kept in key order.
    pub open spec fn wf(&self) -> bool {
        self.channel_table().wf() && self.pair_table().wf() && self.stats().wf()
    }

    /// An empty state at the current format version with the given fingerprint.
    pub fn new(fingerprint: StatFingerprint) -> (state: RuffleState)
        ensures
            state.version() == FORMAT_VERSION,
            state.stats() == fingerprint,
            state.channel_table()@ == Map::<Seq<char>, ChannelSummary>::empty(),
            state.pair_table()@ == Map::<(Seq<char>, Seq<char>), PairSummary>::empty(),
            fingerprint.wf() ==> state.wf(),
            pairs_canonical(state.pair_table()@),
    {
        RuffleState {
            format_version: FORMAT_VERSION,
            fingerprint,
            channels: OrderedMap::new(),
            pairs: OrderedMap::new(),
        }
    }

    /// A state read back from storage, with the versions it was stored at.
    pub fn loaded(
        format_version: u32,
        fingerprint: StatFingerprint,
        channels: OrderedMap<String, ChannelSummary>,
        pairs: OrderedMap<UnorderedPair<String>, PairSummary>,
    ) -> (state: RuffleState)
        ensures
            state.version() == format_version,
            state.stats() == fingerprint,
            state.channel_table() == channels,
            state.pair_table() == pairs,
    {
        RuffleState { format_version, fingerprint, channels, pairs }
    }

    /// The schema format version this state was built or loaded at.
    #[must_use]
    pub fn format_version(&self) -> (v: u32)
        ensures
            v == self.version(),
    {
        self.format_version
    }

    /// The statistic fingerprint this state was built or loaded with.
    #[must_use]
    pub fn fingerprint(&self) -> (f: &StatFingerprint)
        ensures
            *f == self.stats(),
    {
        &self.fingerprint
    }

    /// Combines several states into one, returning the merged state and an advisory
    /// divergence between the inputs.
    ///
    /// Refuses on the first incompatibility, checked in this order: the format version
    /// and the statistic version of the first state, one format version across all
    /// states, one statistic definition and baseline mode, no conflicting orientation of
    /// a channel, no conflicting tag of a channel. Orientations, channels and pairs are
    /// united by key, and any key shared across states has its summaries pooled.
    pub fn merge(parts: &[&RuffleState], policy: MergePolicy) -> (r: Result<
        (RuffleState, Divergence),
        Mismatch,
    >)
        requires
            forall|i: int| 0 <= i < behind(parts@).len() ==> (#[trigger] behind(parts@)[i]).wf(),
        ensures
            r is Ok <==> mergeable(behind(parts@)),
            r is Ok ==> merges_to(behind(parts@), r->Ok_0.0) && r->Ok_0.1.measures(
                drift(behind(parts@), behind(parts@).len() as int, 0),
            ),
            r is Err ==> refusal(behind(parts@), r->Err_0),
            r is Ok && (forall|i: int|
                0 <= i < behind(parts@).len() ==> pairs_canonical(
                    (#[trigger] behind(parts@)[i]).pair_table()@,
                )) ==> pairs_canonical(r->Ok_0.0.pair_table()@),
    {
        match policy {
            MergePolicy::Strict => {},
        }
        if parts.len() == 0 {
            return Err(Mismatch::Empty);
        }
        let first = parts[0];
        if first.format_version != FORMAT_VERSION {
            return Err(
                Mismatch::FormatVersion { left: FORMAT_VERSION, right: first.format_version },
            );
        }
        if first.fingerprint.stat_version != STAT_VERSION {
            return Err(Mismatch::Fingerprint);
        }
        match other_format_among(parts) {
            Some(i) => {
                assert(other_format(behind(parts@), i as int));
                return Err(
                    Mismatch::FormatVersion {
                        left: first.format_version,
                        right: parts[i].format_version,
                    },
                );
            },
            None => {},
        }
        if other_statistics_among(parts) {
            return Err(Mismatch::Fingerprint);
        }
        let directions = match unite_directions(parts) {
            Ok(directions) => directions,
            Err(e) => {
                return Err(e);
            },
        };
        let channels = match unite_channels(parts) {
            Ok(channels) => channels,
            Err(e) => {
                return Err(e);
            },
        };
        let pairs = unite_pairs(parts);
        let merged = RuffleState {
            format_version: first.format_version,
            fingerprint: StatFingerprint {
                stat_version: first.fingerprint.stat_version,
                baseline_mode: first.fingerprint.baseline_mode,
                directions,
            },
            channels,
            pairs,
        };
        let per_channel = drift_between(parts);
        let max = largest_distance(&per_channel);
        proof {
            if forall|i: int|
                0 <= i < behind(parts@).len() ==> pairs_canonical(
                    (#[trigger] behind(parts@)[i]).pair_table()@,
                ) {
                lemma_united_pairs_canonical(behind(parts@), parts@.len() as int);
            }
        }
        Ok((merged, Divergence { per_channel, max }))
    }

    /// The advisory divergence between this state and another.
    ///
    /// For every channel present in both states it reports the standardized distance of
    /// its two baselines, the larger one. Channels present in only one state are absent.
    #[must_use]
    pub fn divergence(&self, other: &RuffleState) -> (d: Divergence)
        requires
            self.wf(),
            other.wf(),
        ensures
            d.measures(gaps(*self, *other)),
    {
        let per_channel = gaps_between(self, other);
        let max = largest_distance(&per_channel);
        Divergence { per_channel, max }
    }
}

impl RuffleState {
    /// A copy of the state.
    pub fn duplicate(&self) -> (copy: RuffleState)
        requires
            self.wf(),
        ensures
            same_contents(copy, *self),
    {
        RuffleState {
            format_version: self.format_version,
            fingerprint: StatFingerprint {
                stat_version: self.fingerprint.stat_version,
                baseline_mode: self.fingerprint.baseline_mode,
                directions: duplicate_map(&self.fingerprint.directions),
            },
            channels: duplicate_map(&self.channels),
            pairs: duplicate_map(&self.pairs),
        }
    }

    /// The per-channel summaries.
    pub fn channel_map(&self) -> (channels: &OrderedMap<String, ChannelSummary>)
        ensures
            *channels == self.channel_table(),
    {
        &self.channels
    }

    /// The per-pair summaries.
    pub fn pair_map(&self) -> (pairs: &OrderedMap<UnorderedPair<String>, PairSummary>)
        ensures
            *pairs == self.pair_table(),
    {
        &self.pairs
    }

    /// Puts a channel's summary in place.
    pub fn put_channel(&mut self, key: String, summary: ChannelSummary)
        requires
            old(self).wf(),
        ensures
            final(self).wf(),
            final(self).version() == old(self).version(),
            final(self).stats() == old(self).stats(),
            final(self).channel_table()@ == old(self).channel_table()@.insert(key@, summary),
            final(self).pair_table() == old(self).pair_table(),
    {
        self.channels.insert(key, summary);
    }

    /// Puts a pair's summary in place.
    pub fn put_pair(&mut self, pair: UnorderedPair<String>, summary: PairSummary)
        requires
            old(self).wf(),
        ensures
            final(self).wf(),
            final(self).version() == old(self).version(),
            final(self).stats() == old(self).stats(),
            final(self).channel_table() == old(self).channel_table(),
            final(self).pair_table()@ == old(self).pair_table()@.insert(pair@, summary),
            pairs_canonical(old(self).pair_table()@) && pair@ == canonical(pair@.0, pair@.1)
                ==> pairs_canonical(final(self).pair_table()@),
    {
        self.pairs.insert(pair, summary);
    }

    /// Records a channel's orientation, unless one is recorded.
    pub(crate) fn note_direction(&mut self, key: &String, direction: Direction)
        requires
            old(self).wf(),
        ensures
            final(self).wf(),
            final(self).version() == old(self).version(),
            final(self).stats().stat_version == old(self).stats().stat_version,
            final(self).stats().baseline_mode == old(self).stats().baseline_mode,
            final(self).stats().directions@ == if old(self).stats().directions@.contains_key(key@) {
                old(self).stats().directions@
            } else {
                old(self).stats().directions@.insert(key@, direction)
            },
            final(self).channel_table() == old(self).channel_table(),
            final(self).pair_table() == old(self).pair_table(),
    {
        if !self.fingerprint.directions.contains_key(key) {
            self.fingerprint.directions.insert(key.clone(), direction);
        }
    }

    /// Renames a channel's key from `from` to `to`, moving all of its statistics with it.
    ///
    /// Everything keyed by `from` moves to `to`: the channel summary, every pair summary
    /// that referenced `from`, and the channel's orientation in the fingerprint. When
    /// `to` already exists, the moved data and the existing data are pooled, and the
    /// destination keeps its own tag and orientation. A `from` equal to `to` leaves the
    /// state unchanged.
    pub fn rekey(&mut self, from: &str, to: String)
        requires
            old(self).wf(),
        ensures
            from@ == to@ ==> *final(self) == *old(self),
            from@ != to@ ==> rekeyed(*old(self), from@, to@, *final(self)),
            pairs_canonical(old(self).pair_table()@) ==> pairs_canonical(
                final(self).pair_table()@,
            ),
    {
        let source = from.to_owned();
        if source == to {
            return;
        }
        proof {
            let s = self.pair_table().sequence();
            let listed = mentioning(s, s.len() as int, from@);
            if pairs_canonical(self.pair_table()@) {
                lemma_renamed_pairs_canonical(
                    self.pair_table()@,
                    listed,
                    listed.len() as int,
                    from@,
                    to@,
                );
            }
        }
        move_entry(&mut self.channels, &source, to.clone());
        rename_pairs(&mut self.pairs, &source, &to);
        move_entry(&mut self.fingerprint.directions, &source, to);
    }

    /// Scales the confidence of every persisted summary down by `factor`, held to
    /// `[0, 1]`.
    pub fn decay(&mut self, factor: Double)
        requires
            old(self).wf(),
        ensures
            final(self).wf(),
            final(self).version() == old(self).version(),
            final(self).stats() == old(self).stats(),
            final(self).channel_table()@ == old(self).channel_table()@.map_values(
                |s: ChannelSummary| decayed_channel(s, factor),
            ),
            final(self).pair_table()@ == old(self).pair_table()@.map_values(
                |s: PairSummary| decayed_pair(s, factor),
            ),
            pairs_canonical(old(self).pair_table()@) ==> pairs_canonical(
                final(self).pair_table()@,
            ),
    {
        decay_channels(&mut self.channels, factor);
        decay_pairs(&mut self.pairs, factor);
    }
}

/// Moves every pair that mentions `from` to the pair that mentions `to` in its place.
fn rename_pairs(
    pairs: &mut OrderedMap<UnorderedPair<String>, PairSummary>,
    from: &String,
    to: &String,
)
    requires
        old(pairs).wf(),
    ensures
        final(pairs).wf(),
        ({
            let s = old(pairs).sequence();
            let listed = mentioning(s, s.len() as int, from@);
            final(pairs)@ == renamed_pairs(old(pairs)@, listed, listed.len() as int, from@, to@)
        }),
{
    let ghost s = pairs.sequence();
    let ghost start = pairs@;
    let ghost listed = mentioning(s, s.len() as int, from@);
    let mut affected: Vec<UnorderedPair<String>> = Vec::new();
    let mut i: usize = 0;
    while i < pairs.len()
        invariant
            s == pairs.sequence(),
            pairs.wf(),
            pairs@ == start,
            i <= s.len(),
            affected@.len() == mentioning(s, i as int, from@).len(),
            forall|h: int|
                0 <= h < affected@.len() ==> (#[trigger] affected@[h])@ == mentioning(
                    s,
                    i as int,
                    from@,
                )[h],
        decreases s.len() - i,
    {
        let pair = pairs.key_at(i);
        if *pair.first() == *from || *pair.second() == *from {
            affected.push(pair.duplicate());
        }
        i += 1;
    }
    let mut h: usize = 0;
    while h < affected.len()
        invariant
            h <= affected@.len(),
            pairs.wf(),
            affected@.len() == listed.len(),
            forall|x: int| 0 <= x < affected@.len() ==> (#[trigger] affected@[x])@ == listed[x],
            pairs@ == renamed_pairs(start, listed, h as int, from@, to@),
        decreases affected@.len() - h,
    {
        let pair = &affected[h];
        assert(affected@[h as int]@ == listed[h as int]);
        let a = if *pair.first() == *from {
            to.clone()
        } else {
            pair.first().clone()
        };
        let b = if *pair.second() == *from {
            to.clone()
        } else {
            pair.second().clone()
        };
        move_entry(pairs, pair, text_pair(a, b));
        h += 1;
    }
}

fn decay_channels(channels: &mut OrderedMap<String, ChannelSummary>, factor: Double)
    requires
        old(channels).wf(),
    ensures
        final(channels).wf(),
        final(channels)@ == old(channels)@.map_values(
            |s: ChannelSummary| decayed_channel(s, factor),
        ),
{
    let ghost s = channels.sequence();
    let mut i: usize = 0;
    while i < channels.len()
        invariant
            channels.wf(),
            channels.sequence().len() == s.len(),
            i <= s.len(),
            forall|h: int|
                0 <= h < i ==> #[trigger] channels.sequence()[h] == (
                    s[h].0,
                    decayed_channel(s[h].1, factor),
                ),
            forall|h: int| i <= h < s.len() ==> #[trigger] channels.sequence()[h] == s[h],
        decreases s.len() - i,
    {
        let mut summary = channels.value_at(i).copied();
        summary.separation.decay(factor);
        summary.reference.decay(factor);
        assert(channels.sequence()[i as int] == s[i as int]);
        channels.set_value(i, summary);
        i += 1;
    }
    proof {
        lemma_mapped(s, channels.sequence(), |s: ChannelSummary| decayed_channel(s, factor));
    }
}

fn decay_pairs(pairs: &mut OrderedMap<UnorderedPair<String>, PairSummary>, factor: Double)
    requires
        old(pairs).wf(),
    ensures
        final(pairs).wf(),
        final(pairs)@ == old(pairs)@.map_values(|s: PairSummary| decayed_pair(s, factor)),
{
    let ghost s = pairs.sequence();
    let mut i: usize = 0;
    while i < pairs.len()
        invariant
            pairs.wf(),
            pairs.sequence().len() == s.len(),
            i <= s.len(),
            forall|h: int|
                0 <= h < i ==> #[trigger] pairs.sequence()[h] == (
                    s[h].0,
                    decayed_pair(s[h].1, factor),
                ),
            forall|h: int| i <= h < s.len() ==> #[trigger] pairs.sequence()[h] == s[h],
        decreases s.len() - i,
    {
        let mut summary = *pairs.value_at(i);
        summary.redundancy.decay(factor);
        summary.refreshes = summary.refreshes * decay_factor(factor);
        assert(pairs.sequence()[i as int] == s[i as int]);
        pairs.set_value(i, summary);
        i += 1;
    }
    proof {
        lemma_mapped(s, pairs.sequence(), |s: PairSummary| decayed_pair(s, factor));
    }
}

impl Divergence {
    /// The distances are those given, and `max` is the largest of them.
    pub open spec fn measures(&self, distances: Map<Seq<char>, Double>) -> bool {
        &&& self.per_channel.wf()
        &&& self.per_channel@ == distances
        &&& self.max == largest(
            self.per_channel.sequence(),
            self.per_channel.sequence().len() as int,
        )
    }
}

fn other_format_among(parts: &[&RuffleState]) -> (found: Option<usize>)
    requires
        behind(parts@).len() > 0,
    ensures
        found is Some ==> other_format(behind(parts@), found->0 as int) && forall|h: int|
            h < found->0 ==> !#[trigger] other_format(behind(parts@), h),
        found is None ==> forall|h: int| !#[trigger] other_format(behind(parts@), h),
{
    let mut i: usize = 1;
    while i < parts.len()
        invariant
            1 <= i <= behind(parts@).len(),
            forall|h: int| h < i ==> !#[trigger] other_format(behind(parts@), h),
        decreases behind(parts@).len() - i,
    {
        if parts[i].format_version != parts[0].format_version {
            assert(other_format(behind(parts@), i as int));
            return Some(i);
        }
        i += 1;
    }
    None
}

fn other_statistics_among(parts: &[&RuffleState]) -> (found: bool)
    requires
        behind(parts@).len() > 0,
    ensures
        found <==> exists|h: int| #[trigger] other_statistics(behind(parts@), h),
{
    let mut i: usize = 1;
    while i < parts.len()
        invariant
            1 <= i <= behind(parts@).len(),
            forall|h: int| h < i ==> !#[trigger] other_statistics(behind(parts@), h),
        decreases behind(parts@).len() - i,
    {
        if parts[i].fingerprint.stat_version != parts[0].fingerprint.stat_version
            || parts[i].fingerprint.baseline_mode != parts[0].fingerprint.baseline_mode {
            assert(other_statistics(behind(parts@), i as int));
            return true;
        }
        i += 1;
    }
    false
}

fn first_turn(seen: &OrderedMap<String, Direction>, part: &RuffleState) -> (found: Option<usize>)
    requires
        seen.wf(),
    ensures
        found is Some ==> turned(seen@, *part, found->0 as int) && forall|h: int|
            h < found->0 ==> !#[trigger] turned(seen@, *part, h),
        found is None ==> forall|h: int| !#[trigger] turned(seen@, *part, h),
{
    let ghost s = part.stats().directions.sequence();
    let mut j: usize = 0;
    while j < part.fingerprint.directions.len()
        invariant
            seen.wf(),
            s == part.stats().directions.sequence(),
            j <= s.len(),
            forall|h: int| h < j ==> !#[trigger] turned(seen@, *part, h),
        decreases s.len() - j,
    {
        match seen.get(part.fingerprint.directions.key_at(j)) {
            Some(existing) => {
                if *existing != *part.fingerprint.directions.value_at(j) {
                    assert(turned(seen@, *part, j as int));
                    return Some(j);
                }
            },
            None => {},
        }
        assert(!turned(seen@, *part, j as int));
        j += 1;
    }
    None
}

fn first_retag(seen: &OrderedMap<String, ChannelSummary>, part: &RuffleState) -> (found: Option<
    usize,
>)
    requires
        seen.wf(),
    ensures
        found is Some ==> retagged(seen@, *part, found->0 as int) && forall|h: int|
            h < found->0 ==> !#[trigger] retagged(seen@, *part, h),
        found is None ==> forall|h: int| !#[trigger] retagged(seen@, *part, h),
{
    let ghost s = part.channel_table().sequence();
    let mut j: usize = 0;
    while j < part.channels.len()
        invariant
            seen.wf(),
            s == part.channel_table().sequence(),
            j <= s.len(),
            forall|h: int| h < j ==> !#[trigger] retagged(seen@, *part, h),
        decreases s.len() - j,
    {
        match seen.get(part.channels.key_at(j)) {
            Some(existing) => {
                if existing.tag != part.channels.value_at(j).tag {
                    assert(retagged(seen@, *part, j as int));
                    return Some(j);
                }
            },
            None => {},
        }
        assert(!retagged(seen@, *part, j as int));
        j += 1;
    }
    None
}

/// Unites the orientations of all states, refusing the first conflict.
fn unite_directions(parts: &[&RuffleState]) -> (r: Result<OrderedMap<String, Direction>, Mismatch>)
    requires
        forall|i: int| 0 <= i < behind(parts@).len() ==> (#[trigger] behind(parts@)[i]).wf(),
    ensures
        r is Ok <==> one_orientation(behind(parts@)),
        r is Ok ==> r->Ok_0.wf() && r->Ok_0@ == united_directions(behind(parts@), behind(parts@).len() as int),
        r is Err ==> exists|i: int, j: int| #[trigger]
            turns(behind(parts@), i, j) && (forall|a: int, b: int|
                earlier(a, b, i, j) ==> !#[trigger] turns(behind(parts@), a, b)) && r->Err_0
                is DirectionConflict && r->Err_0->DirectionConflict_channel@
                == behind(parts@)[i].stats().directions.sequence()[j].0@,
{
    let mut directions: OrderedMap<String, Direction> = OrderedMap::new();
    let mut i: usize = 0;
    while i < parts.len()
        invariant
            i <= behind(parts@).len(),
            directions.wf(),
            directions@ == united_directions(behind(parts@), i as int),
            forall|h: int| 0 <= h < behind(parts@).len() ==> (#[trigger] behind(parts@)[h]).wf(),
            forall|a: int, b: int| a < i ==> !#[trigger] turns(behind(parts@), a, b),
        decreases behind(parts@).len() - i,
    {
        let part = parts[i];
        assert(behind(parts@)[i as int].wf());
        match first_turn(&directions, part) {
            Some(j) => {
                let channel = part.fingerprint.directions.key_at(j).clone();
                assert(turns(behind(parts@), i as int, j as int));
                assert forall|a: int, b: int| earlier(a, b, i as int, j as int) implies !#[trigger] turns(
                    behind(parts@),
                    a,
                    b,
                ) by {
                    if a == i {
                        assert(!turned(united_directions(behind(parts@), i as int), behind(parts@)[i as int], b));
                    }
                }
                return Err(Mismatch::DirectionConflict { channel });
            },
            None => {},
        }
        assert forall|a: int, b: int| a < i + 1 implies !#[trigger] turns(behind(parts@), a, b) by {
            if a == i {
                assert(!turned(united_directions(behind(parts@), i as int), behind(parts@)[i as int], b));
            }
        }
        unite(&mut directions, &part.fingerprint.directions);
        i += 1;
    }
    Ok(directions)
}

/// Unites the channels of all states, refusing the first conflicting tag.
fn unite_channels(parts: &[&RuffleState]) -> (r: Result<
    OrderedMap<String, ChannelSummary>,
    Mismatch,
>)
    requires
        forall|i: int| 0 <= i < behind(parts@).len() ==> (#[trigger] behind(parts@)[i]).wf(),
    ensures
        r is Ok <==> one_tagging(behind(parts@)),
        r is Ok ==> r->Ok_0.wf() && r->Ok_0@ == united_channels(behind(parts@), behind(parts@).len() as int),
        r is Err ==> exists|i: int, j: int| #[trigger]
            retags(behind(parts@), i, j) && (forall|a: int, b: int|
                earlier(a, b, i, j) ==> !#[trigger] retags(behind(parts@), a, b)) && r->Err_0 is Tag
                && r->Err_0->Tag_channel@ == behind(parts@)[i].channel_table().sequence()[j].0@
                && r->Err_0->Tag_left@ == united_channels(
                behind(parts@),
                i,
            )[behind(parts@)[i].channel_table().sequence()[j].0@].tag@ && r->Err_0->Tag_right@
                == behind(parts@)[i].channel_table().sequence()[j].1.tag@,
{
    let mut channels: OrderedMap<String, ChannelSummary> = OrderedMap::new();
    let mut i: usize = 0;
    while i < parts.len()
        invariant
            i <= behind(parts@).len(),
            channels.wf(),
            channels@ == united_channels(behind(parts@), i as int),
            forall|h: int| 0 <= h < behind(parts@).len() ==> (#[trigger] behind(parts@)[h]).wf(),
            forall|a: int, b: int| a < i ==> !#[trigger] retags(behind(parts@), a, b),
        decreases behind(parts@).len() - i,
    {
        let part = parts[i];
        assert(behind(parts@)[i as int].wf());
        match first_retag(&channels, part) {
            Some(j) => {
                assert(retags(behind(parts@), i as int, j as int));
                assert forall|a: int, b: int| earlier(a, b, i as int, j as int) implies !#[trigger] retags(
                    behind(parts@),
                    a,
                    b,
                ) by {
                    if a == i {
                        assert(!retagged(united_channels(behind(parts@), i as int), behind(parts@)[i as int], b));
                    }
                }
                let key = part.channels.key_at(j);
                match channels.get(key) {
                    Some(existing) => {
                        return Err(
                            Mismatch::Tag {
                                channel: key.clone(),
                                left: existing.tag.clone(),
                                right: part.channels.value_at(j).tag.clone(),
                            },
                        );
                    },
                    None => {},
                }
            },
            None => {
                assert forall|a: int, b: int| a < i + 1 implies !#[trigger] retags(
                    behind(parts@),
                    a,
                    b,
                ) by {
                    if a == i {
                        assert(!retagged(united_channels(behind(parts@), i as int), behind(parts@)[i as int], b));
                    }
                }
            },
        }
        unite(&mut channels, &part.channels);
        i += 1;
    }
    Ok(channels)
}

/// Unites the pairs of all states.
fn unite_pairs(parts: &[&RuffleState]) -> (pairs: OrderedMap<UnorderedPair<String>, PairSummary>)
    requires
        forall|i: int| 0 <= i < behind(parts@).len() ==> (#[trigger] behind(parts@)[i]).wf(),
    ensures
        pairs.wf(),
        pairs@ == united_pairs(behind(parts@), behind(parts@).len() as int),
{
    let mut pairs: OrderedMap<UnorderedPair<String>, PairSummary> = OrderedMap::new();
    let mut i: usize = 0;
    while i < parts.len()
        invariant
            i <= behind(parts@).len(),
            pairs.wf(),
            pairs@ == united_pairs(behind(parts@), i as int),
            forall|h: int| 0 <= h < behind(parts@).len() ==> (#[trigger] behind(parts@)[h]).wf(),
        decreases behind(parts@).len() - i,
    {
        let part = parts[i];
        assert(behind(parts@)[i as int].wf());
        unite(&mut pairs, &part.pairs);
        i += 1;
    }
    pairs
}

/// The distances of all channels that two states share.
fn gaps_between(a: &RuffleState, b: &RuffleState) -> (per_channel: OrderedMap<String, Double>)
    requires
        a.wf(),
        b.wf(),
    ensures
        per_channel.wf(),
        per_channel@ == gaps(*a, *b),
{
    let mut per_channel: OrderedMap<String, Double> = OrderedMap::new();
    let ghost s = a.channel_table().sequence();
    let mut i: usize = 0;
    while i < a.channels.len()
        invariant
            a.wf(),
            b.wf(),
            s == a.channel_table().sequence(),
            i <= s.len(),
            per_channel.wf(),
            forall|k: Seq<char>| #[trigger]
                per_channel@.contains_key(k) <==> map_of(s.take(i as int)).contains_key(k)
                    && b.channel_table()@.contains_key(k),
            forall|k: Seq<char>|
                per_channel@.contains_key(k) ==> #[trigger] per_channel@[k] == gaps(*a, *b)[k],
        decreases s.len() - i,
    {
        proof {
            lemma_prefix_map(s, i as int);
            lemma_entry(s, i as int);
        }
        let key = a.channels.key_at(i);
        let mine = a.channels.value_at(i);
        match b.channels.get(key) {
            Some(theirs) => {
                let d = standardized_distance(&mine.separation, &theirs.separation).max(
                    standardized_distance(&mine.reference, &theirs.reference),
                );
                per_channel.insert(key.clone(), d);
            },
            None => {},
        }
        i += 1;
    }
    proof {
        assert(s.take(s.len() as int) =~= s);
        assert(per_channel@ =~= gaps(*a, *b));
    }
    per_channel
}

/// The largest distance seen on each channel between any two states that both carry it.
fn drift_between(parts: &[&RuffleState]) -> (per_channel: OrderedMap<String, Double>)
    requires
        forall|i: int| 0 <= i < behind(parts@).len() ==> (#[trigger] behind(parts@)[i]).wf(),
    ensures
        per_channel.wf(),
        per_channel@ == drift(behind(parts@), behind(parts@).len() as int, 0),
{
    let mut per_channel: OrderedMap<String, Double> = OrderedMap::new();
    let mut i: usize = 0;
    while i < parts.len()
        invariant
            i <= behind(parts@).len(),
            per_channel.wf(),
            per_channel@ == drift(behind(parts@), i as int, 0),
            forall|h: int| 0 <= h < behind(parts@).len() ==> (#[trigger] behind(parts@)[h]).wf(),
        decreases behind(parts@).len() - i,
    {
        let mut j: usize = i + 1;
        assert(drift(behind(parts@), i as int, i + 1) == drift(behind(parts@), i as int, 0));
        assert(behind(parts@)[i as int].wf());
        while j < parts.len()
            invariant
                i < j <= behind(parts@).len(),
                per_channel.wf(),
                per_channel@ == drift(behind(parts@), i as int, j as int),
                forall|h: int| 0 <= h < behind(parts@).len() ==> (#[trigger] behind(parts@)[h]).wf(),
            decreases behind(parts@).len() - j,
        {
            assert(behind(parts@)[i as int].wf() && behind(parts@)[j as int].wf());
            let between = gaps_between(parts[i], parts[j]);
            unite(&mut per_channel, &between);
            j += 1;
        }
        i += 1;
    }
    per_channel
}

/// The largest of the distances, and zero where none is above it.
fn largest_distance(per_channel: &OrderedMap<String, Double>) -> (max: Double)
    ensures
        max == largest(per_channel.sequence(), per_channel.sequence().len() as int),
{
    let mut max = Double::zero();
    let mut i: usize = 0;
    while i < per_channel.len()
        invariant
            i <= per_channel.sequence().len(),
            max == largest(per_channel.sequence(), i as int),
        decreases per_channel.sequence().len() - i,
    {
        max.pool_in(per_channel.value_at(i));
        i += 1;
    }
    max
}

} // verus!
