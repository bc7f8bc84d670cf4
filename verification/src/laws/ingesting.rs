//! What is kept of a channel's scores when they are read.
use crate::double::Double;
use crate::ingest::anchor::stored;
use crate::ingest::input::ingested;
use crate::laws::seeding::{facing, lemma_orientation};
use crate::precision::exact;
use crate::score::{oriented, Direction};
use vstd::prelude::*;

verus! {

/// `at` are the positions of the finite scores, in order.
pub open spec fn finite_positions<Id>(items: Seq<(Id, Double)>, at: Seq<int>) -> bool {
    &&& forall|j: int|
        0 <= j < at.len() ==> 0 <= #[trigger] at[j] < items.len() && items[at[j]].1.finite()
    &&& forall|i: int, j: int| 0 <= i < j < at.len() ==> #[trigger] at[i] < #[trigger] at[j]
    &&& forall|i: int|
        0 <= i < items.len() && (#[trigger] items[i]).1.finite() ==> at.contains(i)
}

/// `kept` holds the items at the given positions, facing up.
pub open spec fn keeps<Id>(
    items: Seq<(Id, Double)>,
    dir: Direction,
    at: Seq<int>,
    kept: Seq<(Id, Double)>,
) -> bool {
    &&& kept.len() == at.len()
    &&& forall|j: int|
        0 <= j < kept.len() ==> (#[trigger] kept[j]).0 == items[at[j]].0 && kept[j].1.finite()
            && exact(kept[j].1) == facing(dir, items[at[j]].1)
}

/// Reading a channel's scores keeps exactly the items with a finite score, in the order given,
/// each with its score, whose sign is turned where lower ones are better.
pub proof fn lemma_ingest_keeps_the_finite<Id>(items: Seq<(Id, Double)>, dir: Direction)
    ensures
        exists|at: Seq<int>| #[trigger]
            finite_positions(items, at) && keeps(
                items,
                dir,
                at,
                ingested(items, dir, items.len() as int),
            ),
{
    let at = lemma_positions(items, dir, items.len() as int);
    assert(items.take(items.len() as int) =~= items);
    assert(finite_positions(items, at));
}

/// The positions among the first `n` items.
proof fn lemma_positions<Id>(items: Seq<(Id, Double)>, dir: Direction, n: int) -> (at: Seq<int>)
    requires
        0 <= n <= items.len(),
    ensures
        finite_positions(items.take(n), at),
        keeps(items, dir, at, ingested(items, dir, n)),
    decreases n,
{
    if n == 0 {
        Seq::empty()
    } else {
        let before = lemma_positions(items, dir, n - 1);
        let x = items[n - 1].1;
        lemma_turned(dir, x);
        let at = if x.finite() {
            before.push(n - 1)
        } else {
            before
        };
        let all = items.take(n);
        let some = items.take(n - 1);
        assert forall|j: int| 0 <= j < at.len() implies 0 <= #[trigger] at[j] < all.len()
            && all[at[j]].1.finite() by {
            if j < before.len() {
                assert(before[j] == at[j]);
                assert(some[before[j]] == all[at[j]]);
            }
        }
        assert forall|i: int, j: int| 0 <= i < j < at.len() implies #[trigger] at[i]
            < #[trigger] at[j] by {
            assert(before[i] == at[i]);
            if j < before.len() {
                assert(before[j] == at[j]);
            }
        }
        assert forall|i: int| 0 <= i < all.len() && (#[trigger] all[i]).1.finite() implies at.contains(
            i,
        ) by {
            if i < n - 1 {
                assert(some[i] == all[i]);
                assert(before.contains(i));
                let h = choose|h: int| 0 <= h < before.len() && before[h] == i;
                assert(at[h] == i);
            } else {
                assert(at[at.len() - 1] == i);
            }
        }
        at
    }
}

/// Turning a score keeps it finite or not.
proof fn lemma_turned(dir: Direction, x: Double)
    ensures
        oriented(dir, x).finite() == x.finite(),
        x.finite() ==> exact(oriented(dir, x)) == facing(dir, x),
{
    if x.finite() {
        lemma_orientation(dir, x);
    }
}

/// What an anchor stores of a score: nothing where it is not finite, and otherwise the score,
/// whose sign is turned where lower ones are better.
pub proof fn lemma_anchor_stores_the_finite(dir: Direction, value: Double)
    ensures
        stored(dir, value) is Some <==> value.finite(),
        value.finite() ==> stored(dir, value)->0.finite() && exact(stored(dir, value)->0) == facing(
            dir,
            value,
        ),
{
    lemma_turned(dir, value);
}

} // verus!
