//! The full-scored anchor for coupling estimation.
//!
//! The anchor is a set of representative queries, each scored by every channel over a
//! common, unselected candidate set. Because it is full-scored, an absent score is
//! unambiguous: the facet does not apply to that item.
use crate::config::ChannelConfig;
use crate::double::Double;
use crate::score::{orient, oriented, sanitize, Direction, Score};
use vstd::prelude::*;

verus! {

/// A shared evaluation set in which every candidate is scored by every channel, used to
/// estimate how redundant the channels are with each other.
///
/// The candidate set must be an unselected sample rather than any channel's top results;
/// the type cannot enforce this.
#[derive(Debug, Clone)]
pub struct Anchor {
    /// The channels scored (by join-handle `key`), in a fixed order shared by every
    /// score row.
    pub channels: Vec<String>,
    /// `scores[channel][candidate]`: the oriented score when the facet applies, `None`
    /// when it is absent for that item.
    pub scores: Vec<Vec<Option<Double>>>,
}

/// What is stored for a value that a channel reports.
pub open spec fn stored(dir: Direction, value: Double) -> Option<Double> {
    if oriented(dir, value).finite() {
        Some(oriented(dir, value))
    } else {
        None
    }
}

/// `cell` is what is stored for a candidate that `score` was asked about.
pub open spec fn answers<Id, S: Score, F: Fn(&Id, &str) -> Option<S>>(
    score: F,
    candidate: Id,
    key: Seq<char>,
    dir: Direction,
    cell: Option<Double>,
) -> bool {
    exists|k: &str, answer: Option<S>|
        k@ == key && #[trigger] call_ensures(score, (&candidate, k), answer) && match answer {
            None => cell is None,
            Some(s) => exists|value: Double|
                #[trigger] call_ensures(S::value, (&s,), value) && cell == stored(dir, value),
        }
}

impl Anchor {
    /// There is one row of scores for each channel, and every score is finite.
    pub open spec fn wf(&self) -> bool {
        &&& self.scores@.len() == self.channels@.len()
        &&& forall|c: int, i: int|
            0 <= c < self.scores@.len() && 0 <= i < self.scores@[c]@.len() && (
            #[trigger] self.scores@[c]@[i]) is Some ==> self.scores@[c]@[i]->0.finite()
    }

    /// Builds an anchor by scoring every candidate on every channel.
    ///
    /// `score` is called once for each candidate and channel. A score is oriented to
    /// higher-is-better by that channel's direction; a finite result is stored, a
    /// non-finite one is stored as absent. A `None` is stored as it is.
    pub fn build<Id, S: Score, F: Fn(&Id, &str) -> Option<S>>(
        candidates: &[Id],
        channels: &[&ChannelConfig],
        score: F,
    ) -> (anchor: Anchor)
        requires
            forall|id: &Id, key: &str| call_requires(score, (id, key)),
        ensures
            anchor.wf(),
            anchor.channels@.len() == channels@.len(),
            forall|c: int|
                0 <= c < channels@.len() ==> #[trigger] anchor.channels@[c] == channels@[c].id.key,
            forall|c: int|
                0 <= c < channels@.len() ==> (#[trigger] anchor.scores@[c])@.len()
                    == candidates@.len(),
            forall|c: int, i: int|
                0 <= c < channels@.len() && 0 <= i < candidates@.len() ==> answers(
                    score,
                    candidates@[i],
                    channels@[c].id.key@,
                    channels@[c].direction,
                    #[trigger] anchor.scores@[c]@[i],
                ),
    {
        let mut keys: Vec<String> = Vec::new();
        let mut scores: Vec<Vec<Option<Double>>> = Vec::new();
        let mut c: usize = 0;
        while c < channels.len()
            invariant
                forall|id: &Id, key: &str| call_requires(score, (id, key)),
                c <= channels@.len(),
                keys@.len() == c,
                scores@.len() == c,
                forall|h: int| 0 <= h < c ==> #[trigger] keys@[h] == channels@[h].id.key,
                forall|h: int| 0 <= h < c ==> (#[trigger] scores@[h])@.len() == candidates@.len(),
                forall|h: int, i: int|
                    0 <= h < c && 0 <= i < candidates@.len() ==> answers(
                        score,
                        candidates@[i],
                        channels@[h].id.key@,
                        channels@[h].direction,
                        #[trigger] scores@[h]@[i],
                    ),
                forall|h: int, i: int|
                    0 <= h < c && 0 <= i < candidates@.len() && (#[trigger] scores@[h]@[i]) is Some
                        ==> scores@[h]@[i]->0.finite(),
            decreases channels@.len() - c,
        {
            let channel = channels[c];
            let mut row: Vec<Option<Double>> = Vec::new();
            let mut i: usize = 0;
            while i < candidates.len()
                invariant
                    forall|id: &Id, key: &str| call_requires(score, (id, key)),
                    i <= candidates@.len(),
                    row@.len() == i,
                    forall|h: int|
                        0 <= h < i ==> answers(
                            score,
                            candidates@[h],
                            channel.id.key@,
                            channel.direction,
                            #[trigger] row@[h],
                        ),
                    forall|h: int|
                        0 <= h < i && (#[trigger] row@[h]) is Some ==> row@[h]->0.finite(),
                decreases candidates@.len() - i,
            {
                let answer = score(&candidates[i], channel.id.key.as_str());
                let cell = match answer {
                    Some(s) => {
                        let value = s.value();
                        sanitize(orient(channel.direction, value))
                    },
                    None => None,
                };
                assert(answers(
                    score,
                    candidates@[i as int],
                    channel.id.key@,
                    channel.direction,
                    cell,
                ));
                row.push(cell);
                i += 1;
            }
            keys.push(channel.id.key.clone());
            scores.push(row);
            c += 1;
        }
        Anchor { channels: keys, scores }
    }
}

} // verus!
