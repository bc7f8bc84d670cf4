//! One query's input for one channel, in canonical higher-is-better units.
//!
//! A channel is either scored or ranks-only, a stable property of how the channel is
//! wired. Ingest orients to higher-is-better and drops non-finite values, so everything
//! downstream sees canonical scores.
use crate::config::ChannelConfig;
use crate::double::Double;
use crate::score::{orient, oriented, sanitize, Direction, Score};
use vstd::prelude::*;

verus! {

/// A channel's surfaced items for one query.
///
/// `Scored` holds scores that have been oriented to higher-is-better and had non-finite
/// values removed. `Ranks` is a ranks-only channel that produces no scores. A variant
/// built directly stores its values verbatim.
///
/// Each channel lists each item at most once; a repeated id is counted twice by the
/// fusion.
#[derive(Clone, Debug, PartialEq)]
pub enum Items<Id> {
    /// Surfaced items paired with oriented, sanitized scores. Order is as supplied.
    Scored(Vec<(Id, Double)>),
    /// A ranks-only channel: items in rank order, best first, no scores.
    Ranks(Vec<Id>),
}

impl<Id> Items<Id> {
    /// The number of items carried.
    pub open spec fn size(&self) -> nat {
        match *self {
            Items::Scored(v) => v@.len(),
            Items::Ranks(v) => v@.len(),
        }
    }

    /// The id at a position.
    pub open spec fn id_at(&self, i: int) -> Id {
        match *self {
            Items::Scored(v) => v@[i].0,
            Items::Ranks(v) => v@[i],
        }
    }

    /// The number of items carried.
    pub fn len(&self) -> (n: usize)
        ensures
            n == self.size(),
    {
        match self {
            Items::Scored(v) => v.len(),
            Items::Ranks(v) => v.len(),
        }
    }

    /// Whether the channel surfaced no items for this query.
    pub fn is_empty(&self) -> (r: bool)
        ensures
            r == (self.size() == 0),
    {
        self.len() == 0
    }

    /// Whether this is a ranks-only channel.
    pub fn is_ranks_only(&self) -> (r: bool)
        ensures
            r == (self is Ranks),
    {
        match self {
            Items::Scored(_) => false,
            Items::Ranks(_) => true,
        }
    }
}

/// One channel's input for one query: the channel's `key` plus its surfaced items.
#[derive(Clone, Debug, PartialEq)]
pub struct ChannelInput<Id> {
    /// The channel this input belongs to, named by its `key`.
    pub key: String,
    /// The surfaced items, already oriented and sanitized.
    pub items: Items<Id>,
}

/// The first `n` items with their scores oriented, non-finite ones dropped.
pub open spec fn ingested<Id>(items: Seq<(Id, Double)>, dir: Direction, n: int) -> Seq<
    (Id, Double),
>
    decreases n,
{
    if n <= 0 {
        Seq::empty()
    } else {
        let score = oriented(dir, items[n - 1].1);
        if score.finite() {
            ingested(items, dir, n - 1).push((items[n - 1].0, score))
        } else {
            ingested(items, dir, n - 1)
        }
    }
}

/// `valued` pairs each id of `items` with a value that its score reports.
pub open spec fn valued<Id, S: Score>(items: Seq<(Id, S)>, values: Seq<(Id, Double)>) -> bool {
    &&& values.len() == items.len()
    &&& forall|i: int|
        0 <= i < items.len() ==> (#[trigger] values[i]).0 == items[i].0 && call_ensures(
            S::value,
            (&items[i].1,),
            values[i].1,
        )
}

/// Orients the scores of a reversed list and drops the non-finite ones, restoring order.
fn ingest_reversed<Id>(
    reversed: Vec<(Id, Double)>,
    dir: Direction,
    Ghost(items): Ghost<Seq<(Id, Double)>>,
) -> (kept: Vec<(Id, Double)>)
    requires
        reversed@.len() == items.len(),
        forall|i: int|
            0 <= i < items.len() ==> #[trigger] reversed@[i] == items[items.len() - 1 - i],
    ensures
        kept@ == ingested(items, dir, items.len() as int),
{
    let mut rest = reversed;
    let mut kept: Vec<(Id, Double)> = Vec::new();
    let ghost mut done: int = 0;
    loop
        invariant
            0 <= done <= items.len(),
            rest@.len() == items.len() - done,
            forall|i: int|
                0 <= i < rest@.len() ==> #[trigger] rest@[i] == items[items.len() - 1 - i],
            kept@ == ingested(items, dir, done),
        ensures
            kept@ == ingested(items, dir, items.len() as int),
        decreases rest@.len(),
    {
        match rest.pop() {
            Some((id, raw)) => {
                proof {
                    assert((id, raw) == items[done]);
                    done = done + 1;
                }
                match sanitize(orient(dir, raw)) {
                    Some(score) => {
                        kept.push((id, score));
                    },
                    None => {},
                }
            },
            None => {
                break;
            },
        }
    }
    kept
}

impl<Id> ChannelInput<Id> {
    /// Builds a scored input from plain values: orients each to higher-is-better by the
    /// channel's declared direction, and drops the item if the result is non-finite.
    pub fn from_values(cfg: &ChannelConfig, items: Vec<(Id, Double)>) -> (input: ChannelInput<Id>)
        ensures
            input.key == cfg.id.key,
            input.items is Scored,
            input.items->Scored_0@ == ingested(items@, cfg.direction, items@.len() as int),
    {
        let ghost all = items@;
        let mut rest = items;
        let mut reversed: Vec<(Id, Double)> = Vec::new();
        loop
            invariant
                rest@.len() + reversed@.len() == all.len(),
                forall|i: int| 0 <= i < rest@.len() ==> #[trigger] rest@[i] == all[i],
                forall|i: int|
                    0 <= i < reversed@.len() ==> #[trigger] reversed@[i] == all[all.len() - 1 - i],
            ensures
                reversed@.len() == all.len(),
            decreases rest@.len(),
        {
            match rest.pop() {
                Some(pair) => {
                    reversed.push(pair);
                },
                None => {
                    break;
                },
            }
        }
        let kept = ingest_reversed(reversed, cfg.direction, Ghost(all));
        ChannelInput { key: cfg.id.key.clone(), items: Items::Scored(kept) }
    }

    /// Builds a scored input: reads each item's score, orients it to higher-is-better by
    /// the channel's declared direction, and drops the item if the result is non-finite.
    pub fn scored<S: Score>(cfg: &ChannelConfig, items: Vec<(Id, S)>) -> (input: ChannelInput<Id>)
        ensures
            input.key == cfg.id.key,
            input.items is Scored,
            exists|values: Seq<(Id, Double)>| #[trigger]
                valued(items@, values) && input.items->Scored_0@ == ingested(
                    values,
                    cfg.direction,
                    values.len() as int,
                ),
    {
        let ghost all = items@;
        let mut rest = items;
        let mut reversed: Vec<(Id, Double)> = Vec::new();
        loop
            invariant
                rest@.len() + reversed@.len() == all.len(),
                forall|i: int| 0 <= i < rest@.len() ==> #[trigger] rest@[i] == all[i],
                forall|i: int|
                    0 <= i < reversed@.len() ==> (#[trigger] reversed@[i]).0 == all[all.len() - 1
                        - i].0 && call_ensures(
                        S::value,
                        (&all[all.len() - 1 - i].1,),
                        reversed@[i].1,
                    ),
            ensures
                reversed@.len() == all.len(),
            decreases rest@.len(),
        {
            match rest.pop() {
                Some((id, score)) => {
                    let value = score.value();
                    reversed.push((id, value));
                },
                None => {
                    break;
                },
            }
        }
        let ghost values = Seq::new(all.len(), |i: int| reversed@[all.len() - 1 - i]);
        proof {
            assert(valued(all, values)) by {
                assert forall|i: int| 0 <= i < all.len() implies (#[trigger] values[i]).0
                    == all[i].0 && call_ensures(S::value, (&all[i].1,), values[i].1) by {
                    let h = all.len() - 1 - i;
                    assert(all.len() - 1 - h == i);
                    assert(reversed@[h].0 == all[all.len() - 1 - h].0);
                }
            }
        }
        let kept = ingest_reversed(reversed, cfg.direction, Ghost(values));
        ChannelInput { key: cfg.id.key.clone(), items: Items::Scored(kept) }
    }

    /// Builds a ranks-only input for a channel that produces no scores. The order is used
    /// as given, best first.
    pub fn ranked(cfg: &ChannelConfig, ids: Vec<Id>) -> (input: ChannelInput<Id>)
        ensures
            input.key == cfg.id.key,
            input.items == Items::Ranks(ids),
    {
        ChannelInput { key: cfg.id.key.clone(), items: Items::Ranks(ids) }
    }
}

/// Every score that ingest keeps is finite.
pub proof fn lemma_ingested_finite<Id>(items: Seq<(Id, Double)>, dir: Direction, n: int)
    requires
        n <= items.len(),
    ensures
        forall|i: int|
            0 <= i < ingested(items, dir, n).len() ==> (#[trigger] ingested(
                items,
                dir,
                n,
            )[i]).1.finite(),
        ingested(items, dir, n).len() <= if n <= 0 {
            0
        } else {
            n
        },
    decreases n,
{
    if n > 0 {
        lemma_ingested_finite(items, dir, n - 1);
    }
}

} // verus!
