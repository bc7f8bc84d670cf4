//! Identifiers and the state fingerprint.
//!
//! A channel is named by a [`ChannelId`]: a stable join handle (the `key`) that keys
//! every persistent map, and a model-version `tag` that gates every merge. A
//! [`StatFingerprint`] records whether two states were measuring the same thing the
//! same way.
use crate::ordered::{text_before, text_place, MapKey, OrderedMap, Place};
use crate::score::Direction;
use crate::text::Text;
use vstd::prelude::*;

verus! {

/// A channel's identity: a stable join handle (`key`) plus a model-version `tag`.
///
/// Every persistent map is keyed by `key` alone, so accumulation across time and
/// deployments lands on the right channel. The `tag` is never interpreted; two states
/// that share a channel's `key` but disagree on its `tag` do not merge.
#[derive(Clone, Debug, PartialEq, Eq, Hash, PartialOrd, Ord)]
pub struct ChannelId {
    /// The stable join handle.
    pub key: String,
    /// The model-version tag.
    pub tag: String,
}

impl ChannelId {
    /// Builds a channel id from a join handle and a model-version tag.
    pub fn new<K: Text, T: Text>(key: K, tag: T) -> (id: ChannelId)
        ensures
            id.key@ == key.shown(),
            id.tag@ == tag.shown(),
    {
        ChannelId { key: key.into_text(), tag: tag.into_text() }
    }

    /// The id as text: the key, `@`, and the tag.
    pub fn to_string(&self) -> (text: String)
        ensures
            text@ == self.key@ + "@"@ + self.tag@,
    {
        let mut text = self.key.clone();
        text.append("@");
        text.append(self.tag.as_str());
        text
    }
}

/// An unordered pair, stored in canonical (sorted) order so `(a, b) == (b, a)`.
///
/// Used to key pairwise summaries by channel pair without regard to which member came
/// first. The constructor sorts its two members, so pairs with the same members in
/// either order compare, hash, and order identically.
#[derive(Clone, Debug, PartialEq, Eq, PartialOrd, Ord, Hash)]
pub struct UnorderedPair<T>(T, T);

impl<T> UnorderedPair<T> {
    /// The smaller member.
    pub closed spec fn low(&self) -> T {
        self.0
    }

    /// The larger member.
    pub closed spec fn high(&self) -> T {
        self.1
    }
}

impl<T: View> View for UnorderedPair<T> {
    type V = (T::V, T::V);

    open spec fn view(&self) -> (T::V, T::V) {
        (self.low()@, self.high()@)
    }
}

impl<T: Ord> UnorderedPair<T> {
    /// Builds a pair, sorting the two members into canonical order.
    pub fn new(a: T, b: T) -> (pair: Self)
        ensures
            exists|ordered: bool|
                #[trigger] call_ensures(T::le, (&a, &b), ordered) && if ordered {
                    pair.low() == a && pair.high() == b
                } else {
                    pair.low() == b && pair.high() == a
                },
    {
        let ordered: bool = a.le(&b);
        if ordered {
            UnorderedPair(a, b)
        } else {
            UnorderedPair(b, a)
        }
    }

    /// The smaller member (canonical first).
    pub fn first(&self) -> (member: &T)
        ensures
            *member == self.low(),
    {
        &self.0
    }

    /// The larger member (canonical second).
    pub fn second(&self) -> (member: &T)
        ensures
            *member == self.high(),
    {
        &self.1
    }

    /// Both members as a tuple, in canonical order.
    pub fn as_tuple(&self) -> (members: (&T, &T))
        ensures
            *members.0 == self.low(),
            *members.1 == self.high(),
    {
        (&self.0, &self.1)
    }

    /// Consumes the pair into its two members, in canonical order.
    pub fn into_inner(self) -> (members: (T, T))
        ensures
            members.0 == self.low(),
            members.1 == self.high(),
    {
        (self.0, self.1)
    }
}

/// The canonical order of two texts: the one that comes first by its bytes goes first.
pub open spec fn canonical(a: Seq<char>, b: Seq<char>) -> (Seq<char>, Seq<char>) {
    if text_before(b, a) {
        (b, a)
    } else {
        (a, b)
    }
}

/// The canonical order does not depend on which text was named first.
pub proof fn lemma_canonical_symmetric(a: Seq<char>, b: Seq<char>)
    ensures
        canonical(a, b) == canonical(b, a),
{
    crate::ordered::lemma_text_order(a, b, a);
    crate::ordered::lemma_text_order(b, a, b);
}

/// The canonical order of a pair that is in it already is the pair.
pub proof fn lemma_canonical_twice(a: Seq<char>, b: Seq<char>)
    ensures
        ({
            let pair = canonical(a, b);
            pair == canonical(pair.0, pair.1)
        }),
{
    crate::ordered::lemma_text_order(a, b, a);
    crate::ordered::lemma_text_order(b, a, b);
}

/// Builds the pair of two texts, ordered by their bytes.
pub fn text_pair(a: String, b: String) -> (pair: UnorderedPair<String>)
    ensures
        pair@ == canonical(a@, b@),
        text_before(b@, a@) ==> pair.low() == b && pair.high() == a,
        !text_before(b@, a@) ==> pair.low() == a && pair.high() == b,
{
    match text_place(a.as_str(), b.as_str()) {
        Place::After => UnorderedPair(b, a),
        _ => UnorderedPair(a, b),
    }
}

impl MapKey for UnorderedPair<String> {
    open spec fn before(a: (Seq<char>, Seq<char>), b: (Seq<char>, Seq<char>)) -> bool {
        text_before(a.0, b.0) || (a.0 == b.0 && text_before(a.1, b.1))
    }

    proof fn lemma_order(
        a: (Seq<char>, Seq<char>),
        b: (Seq<char>, Seq<char>),
        c: (Seq<char>, Seq<char>),
    ) {
        crate::ordered::lemma_text_order(a.0, b.0, c.0);
        crate::ordered::lemma_text_order(a.1, b.1, c.1);
    }

    fn place(&self, other: &Self) -> (p: Place) {
        proof {
            crate::ordered::lemma_text_order(self.0@, other.0@, self.0@);
            crate::ordered::lemma_text_order(self.1@, other.1@, self.1@);
            crate::ordered::lemma_text_order(other.0@, self.0@, other.0@);
        }
        match text_place(self.0.as_str(), other.0.as_str()) {
            Place::Same => text_place(self.1.as_str(), other.1.as_str()),
            p => p,
        }
    }

    fn duplicate(&self) -> (copy: Self) {
        UnorderedPair(self.0.clone(), self.1.clone())
    }
}

/// How a channel's scores are standardized within the channel before comparison.
#[derive(Clone, Copy, Debug, PartialEq, Eq, Structural)]
#[non_exhaustive]
pub enum BaselineMode {
    /// Standardizes each score against the channel's running mean and variance.
    ZScore,
}

impl Default for BaselineMode {
    fn default() -> (mode: BaselineMode)
        ensures
            mode == BaselineMode::ZScore,
    {
        BaselineMode::ZScore
    }
}

/// The statistic-definition version that this library writes: rank-based anchor
/// redundancy, invariant to any monotone rescaling of a channel's scores.
pub const STAT_VERSION: u32 = 2;

/// A fingerprint answering whether two states were measuring the same thing the same way.
///
/// Two states built with different statistic definitions, orientations, or baseline
/// modes are numerically incompatible even when their serialization formats match.
#[derive(Clone, Debug, PartialEq, Eq)]
pub struct StatFingerprint {
    /// Version of the discrimination/coupling statistic definitions.
    pub stat_version: u32,
    /// Which within-channel standardization the state was built with.
    pub baseline_mode: BaselineMode,
    /// The per-channel orientation in force when the state was built, keyed by the
    /// channel's join handle.
    pub directions: OrderedMap<String, Direction>,
}

impl StatFingerprint {
    /// The statistic-definition version that this library writes.
    pub const STAT_VERSION: u32 = STAT_VERSION;

    /// A fingerprint at the current statistic version with the given baseline mode
    /// and per-channel directions (keyed by join handle).
    pub fn new(baseline_mode: BaselineMode, directions: OrderedMap<String, Direction>) -> (fp:
        StatFingerprint)
        ensures
            fp.stat_version == STAT_VERSION,
            fp.baseline_mode == baseline_mode,
            fp.directions == directions,
    {
        StatFingerprint { stat_version: STAT_VERSION, baseline_mode, directions }
    }

    /// The orientations are kept in key order.
    pub open spec fn wf(&self) -> bool {
        self.directions.wf()
    }
}

} // verus!
