//! Renaming a channel to a name that is taken.
use crate::keys::{canonical, lemma_canonical_symmetric};
use crate::laws::merging::{lemma_mentioning_lists, lemma_mentioning_members, lemma_renamed_clean};
use crate::ordered::{holds_key, lemma_entry, position};
use crate::pooling::Pool;
use crate::state::{
    mentioning, mentions, pairs_canonical, rekeyed, renamed, renamed_pair, renamed_pairs,
    PairSummary, RuffleState,
};
use vstd::prelude::*;

verus! {

/// What stands under a taken name after two entries have been joined there.
pub open spec fn joined<K, V: Pool>(m: Map<K, V>, kept: K, gone: K) -> Option<V> {
    if m.contains_key(kept) && m.contains_key(gone) {
        Some(V::combined(m[kept], m[gone]))
    } else if m.contains_key(gone) {
        Some(m[gone])
    } else if m.contains_key(kept) {
        Some(m[kept])
    } else {
        None
    }
}

/// What a map holds under a key.
pub open spec fn found<K, V>(m: Map<K, V>, k: K) -> Option<V> {
    if m.contains_key(k) {
        Some(m[k])
    } else {
        None
    }
}

/// Renaming a channel to a taken name joins the two: the summaries are pooled, and what the
/// taken name has of tag and orientation stays. Every other channel keeps what it has. With any
/// third channel the two redundancies are pooled as well, and pairs of other channels keep
/// theirs.
pub proof fn lemma_rekey_joins(
    before: RuffleState,
    from: Seq<char>,
    to: Seq<char>,
    after: RuffleState,
)
    requires
        before.wf(),
        from != to,
        pairs_canonical(before.pair_table()@),
        rekeyed(before, from, to, after),
    ensures
        found(after.channel_table()@, to) == joined(before.channel_table()@, to, from),
        before.channel_table()@.contains_key(to) ==> after.channel_table()@[to].tag
            == before.channel_table()@[to].tag,
        before.stats().directions@.contains_key(to) ==> found(after.stats().directions@, to)
            == Some(before.stats().directions@[to]),
        !before.stats().directions@.contains_key(to) ==> found(after.stats().directions@, to)
            == found(before.stats().directions@, from),
        forall|x: Seq<char>|
            x != from && x != to ==> found(after.channel_table()@, x) == #[trigger] found(
                before.channel_table()@,
                x,
            ),
        forall|x: Seq<char>|
            x != from && x != to ==> found(after.stats().directions@, x) == #[trigger] found(
                before.stats().directions@,
                x,
            ),
        forall|x: Seq<char>|
            x != from && x != to ==> found(
                after.pair_table()@,
                #[trigger] canonical(to, x),
            ) == joined(before.pair_table()@, canonical(to, x), canonical(from, x)),
        forall|k: (Seq<char>, Seq<char>)|
            !mentions(k, from) && !mentions(k, to) ==> #[trigger] found(after.pair_table()@, k)
                == found(before.pair_table()@, k),
{
    let s = before.pair_table().sequence();
    let n = s.len() as int;
    let m = before.pair_table()@;
    let listed = mentioning(s, n, from);
    lemma_mentioning_members(s, n, from);
    assert forall|h: int| 0 <= h < listed.len() implies m.contains_key(#[trigger] listed[h])
        && mentions(listed[h], from) by {
        let p = choose|p: int| 0 <= p < n && (#[trigger] s[p]).0@ == listed[h];
        lemma_entry(s, p);
    }
    assert forall|x: Seq<char>| x != from && x != to implies found(
        after.pair_table()@,
        #[trigger] canonical(to, x),
    ) == joined(m, canonical(to, x), canonical(from, x)) by {
        let old_pair = canonical(from, x);
        lemma_pair_joins(m, listed, listed.len() as int, from, to, x);
        assert(listed.take(listed.len() as int) =~= listed);
        if listed.contains(old_pair) {
            let h = choose|h: int| 0 <= h < listed.len() && listed[h] == old_pair;
            assert(m.contains_key(listed[h]));
        }
        if m.contains_key(old_pair) {
            lemma_canonical_symmetric(from, x);
            assert(mentions(old_pair, from));
            assert(holds_key(s, old_pair));
            let p = position(s, old_pair);
            assert(s[p].0@ == old_pair);
            lemma_mentioning_lists(s, n, from, p);
        }
    }
    assert forall|k: (Seq<char>, Seq<char>)| !mentions(k, from) && !mentions(k, to) implies
        #[trigger] found(after.pair_table()@, k) == found(m, k) by {
        lemma_pair_kept(m, listed, listed.len() as int, from, to, k);
    }
}

/// A pair of other channels is not touched.
proof fn lemma_pair_kept(
    m: Map<(Seq<char>, Seq<char>), PairSummary>,
    listed: Seq<(Seq<char>, Seq<char>)>,
    n: int,
    from: Seq<char>,
    to: Seq<char>,
    k: (Seq<char>, Seq<char>),
)
    requires
        0 <= n <= listed.len(),
        !mentions(k, from),
        !mentions(k, to),
        forall|h: int| 0 <= h < listed.len() ==> mentions(#[trigger] listed[h], from),
    ensures
        found(renamed_pairs(m, listed, n, from, to), k) == found(m, k),
    decreases n,
{
    if n > 0 {
        lemma_pair_kept(m, listed, n - 1, from, to, k);
        assert(mentions(listed[n - 1], from));
        assert(mentions(renamed_pair(listed[n - 1], from, to), to));
    }
}

/// Only the pair of the old name with a channel becomes the pair of the new name with it.
proof fn lemma_one_source(
    pair: (Seq<char>, Seq<char>),
    from: Seq<char>,
    to: Seq<char>,
    x: Seq<char>,
)
    requires
        from != to,
        x != from,
        x != to,
        pair == canonical(pair.0, pair.1),
        mentions(pair, from),
    ensures
        renamed_pair(pair, from, to) == canonical(to, x) <==> pair == canonical(from, x),
{
    lemma_canonical_symmetric(pair.0, pair.1);
    lemma_canonical_symmetric(renamed(pair.0, from, to), renamed(pair.1, from, to));
    lemma_canonical_symmetric(from, x);
    lemma_canonical_symmetric(to, x);
}

/// What the first `n` moves have done to the pair of the new name with a third channel.
proof fn lemma_pair_joins(
    m: Map<(Seq<char>, Seq<char>), PairSummary>,
    listed: Seq<(Seq<char>, Seq<char>)>,
    n: int,
    from: Seq<char>,
    to: Seq<char>,
    x: Seq<char>,
)
    requires
        from != to,
        x != from,
        x != to,
        0 <= n <= listed.len(),
        listed.no_duplicates(),
        pairs_canonical(m),
        forall|h: int|
            0 <= h < listed.len() ==> m.contains_key(#[trigger] listed[h]) && mentions(
                listed[h],
                from,
            ),
    ensures
        ({
            let r = renamed_pairs(m, listed, n, from, to);
            &&& listed.take(n).contains(canonical(from, x)) ==> found(r, canonical(to, x))
                == joined(m, canonical(to, x), canonical(from, x))
            &&& !listed.take(n).contains(canonical(from, x)) ==> found(r, canonical(to, x))
                == found(m, canonical(to, x))
            &&& forall|h: int|
                n <= h < listed.len() ==> found(r, #[trigger] listed[h]) == found(m, listed[h])
        }),
    decreases n,
{
    let old_pair = canonical(from, x);
    let new_pair = canonical(to, x);
    if n > 0 {
        lemma_pair_joins(m, listed, n - 1, from, to, x);
        let q = renamed_pairs(m, listed, n - 1, from, to);
        let last = listed[n - 1];
        assert(m.contains_key(last) && mentions(last, from));
        lemma_one_source(last, from, to, x);
        lemma_renamed_clean(last, from, to);
        assert(listed.take(n) =~= listed.take(n - 1).push(last));
        assert(found(q, listed[n - 1]) == found(m, last));
        assert(listed.take(n)[n - 1] == last);
        if listed.take(n - 1).contains(old_pair) {
            let some = listed.take(n - 1);
            let h = choose|h: int| 0 <= h < some.len() && some[h] == old_pair;
            assert(listed.take(n)[h] == old_pair);
            assert(listed[h] == old_pair && listed[h] != listed[n - 1]);
        } else if last != old_pair {
            assert(!listed.take(n).contains(old_pair));
        }
        assert forall|h: int| n <= h < listed.len() implies found(
            renamed_pairs(m, listed, n, from, to),
            #[trigger] listed[h],
        ) == found(m, listed[h]) by {
            assert(listed[h] != listed[n - 1]);
            assert(mentions(listed[h], from));
            assert(found(q, listed[h]) == found(m, listed[h]));
        }
        assert(!mentions(new_pair, from));
    } else {
        assert(listed.take(0).len() == 0);
    }
}

} // verus!
