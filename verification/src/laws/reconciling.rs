//! What is said of channels that only some states carry.
use crate::ordered::{increasing, lemma_entry, holds_key, MapKey, OrderedMap};
use crate::reconcile::{
    carriers, counts_carriers, shared_keys, single_keys, warning, warnings_for,
};
use crate::state::RuffleState;
use vstd::prelude::*;

verus! {

/// The states that carry a channel.
pub open spec fn holders(parts: Seq<RuffleState>, key: Seq<char>) -> Set<int> {
    Set::new(|i: int| 0 <= i < parts.len() && parts[i].channel_table()@.contains_key(key))
}

/// A channel is counted once for every state that carries it.
pub proof fn lemma_carriers_are_counted(parts: Seq<RuffleState>, key: Seq<char>)
    ensures
        holders(parts, key).finite(),
        carriers(parts, parts.len() as int, key) == holders(parts, key).len(),
{
    lemma_carriers_among(parts, parts.len() as int, key);
    let n = parts.len() as int;
    assert(holders(parts, key) =~= holders(parts, key).filter(|i: int| i < n));
}

proof fn lemma_carriers_among(parts: Seq<RuffleState>, n: int, key: Seq<char>)
    requires
        0 <= n <= parts.len(),
    ensures
        holders(parts, key).filter(|i: int| i < n).finite(),
        carriers(parts, n, key) == holders(parts, key).filter(|i: int| i < n).len(),
    decreases n,
{
    let now = holders(parts, key).filter(|i: int| i < n);
    if n > 0 {
        lemma_carriers_among(parts, n - 1, key);
        let before = holders(parts, key).filter(|i: int| i < n - 1);
        if parts[n - 1].channel_table()@.contains_key(key) {
            assert(now =~= before.insert(n - 1));
        } else {
            assert(now =~= before);
        }
    } else {
        assert(now =~= Set::empty());
    }
}

/// The report on a reconciliation tells every channel once: among the merged ones exactly where
/// several states carry it, and among the carried ones exactly where one does.
pub proof fn lemma_reports_every_channel(
    parts: Seq<RuffleState>,
    counts: OrderedMap<String, usize>,
    key: Seq<char>,
)
    requires
        counts.wf(),
        counts_carriers(parts, counts@),
    ensures
        ({
            let s = counts.sequence();
            let n = s.len() as int;
            &&& shared_keys(s, n).contains(key) <==> holders(parts, key).len() >= 2
            &&& single_keys(s, n).contains(key) <==> holders(parts, key).len() == 1
            &&& shared_keys(s, n).no_duplicates()
            &&& single_keys(s, n).no_duplicates()
        }),
{
    let s = counts.sequence();
    let n = s.len() as int;
    lemma_carriers_are_counted(parts, key);
    lemma_sorted_out(s, n);
    lemma_counted_at(counts, key);
    if counts@.contains_key(key) {
        assert(counts@[key] == carriers(parts, parts.len() as int, key));
    }
}

/// What a map holds under a key stands in its entries, once.
proof fn lemma_counted_at(counts: OrderedMap<String, usize>, key: Seq<char>)
    requires
        counts.wf(),
    ensures
        counts@.contains_key(key) <==> holds_key(counts.sequence(), key),
        forall|p: int|
            0 <= p < counts.sequence().len() && (#[trigger] counts.sequence()[p]).0@ == key
                ==> counts@.contains_key(key) && counts@[key] == counts.sequence()[p].1,
{
    let s = counts.sequence();
    assert forall|p: int| 0 <= p < s.len() && (#[trigger] s[p]).0@ == key implies counts@.contains_key(
        key,
    ) && counts@[key] == s[p].1 by {
        lemma_entry(s, p);
    }
}

/// The two lists hold the keys by their counts.
proof fn lemma_sorted_out(s: Seq<(String, usize)>, m: int)
    requires
        increasing(s),
        0 <= m <= s.len(),
    ensures
        shared_keys(s, m).no_duplicates(),
        single_keys(s, m).no_duplicates(),
        forall|k: Seq<char>| #[trigger]
            shared_keys(s, m).contains(k) <==> exists|p: int|
                0 <= p < m && (#[trigger] s[p]).0@ == k && s[p].1 >= 2,
        forall|k: Seq<char>| #[trigger]
            single_keys(s, m).contains(k) <==> exists|p: int|
                0 <= p < m && (#[trigger] s[p]).0@ == k && s[p].1 == 1,
    decreases m,
{
    if m > 0 {
        lemma_sorted_out(s, m - 1);
        let last = s[m - 1].0@;
        assert forall|p: int| 0 <= p < m - 1 implies (#[trigger] s[p]).0@ != last by {
            assert(<String as MapKey>::before(s[p].0@, s[m - 1].0@));
            <String as MapKey>::lemma_order(last, last, last);
        }
        let a = shared_keys(s, m - 1);
        let b = single_keys(s, m - 1);
        assert(!a.contains(last));
        assert(!b.contains(last));
        assert forall|k: Seq<char>| #[trigger] shared_keys(s, m).contains(k) <==> exists|p: int|
            0 <= p < m && (#[trigger] s[p]).0@ == k && s[p].1 >= 2 by {
            lemma_pushed(a, last, k);
            if a.contains(k) {
                let p = choose|p: int| 0 <= p < m - 1 && (#[trigger] s[p]).0@ == k && s[p].1 >= 2;
                assert(s[p].0@ == k);
            }
        }
        assert forall|k: Seq<char>| #[trigger] single_keys(s, m).contains(k) <==> exists|p: int|
            0 <= p < m && (#[trigger] s[p]).0@ == k && s[p].1 == 1 by {
            lemma_pushed(b, last, k);
            if b.contains(k) {
                let p = choose|p: int| 0 <= p < m - 1 && (#[trigger] s[p]).0@ == k && s[p].1 == 1;
                assert(s[p].0@ == k);
            }
        }
    }
}

proof fn lemma_pushed(a: Seq<Seq<char>>, x: Seq<char>, k: Seq<char>)
    ensures
        a.push(x).contains(k) <==> a.contains(k) || k == x,
{
    let b = a.push(x);
    if a.contains(k) {
        let h = choose|h: int| 0 <= h < a.len() && a[h] == k;
        assert(b[h] == k);
    }
    if k == x {
        assert(b[a.len() as int] == k);
    }
    if b.contains(k) {
        let h = choose|h: int| 0 <= h < b.len() && b[h] == k;
        if h < a.len() {
            assert(a[h] == k);
        }
    }
}

/// A text warns of a channel that some of the states carry and others do not.
pub open spec fn warns_of(parts: Seq<RuffleState>, key: Seq<char>, text: Seq<char>) -> bool {
    let held = holders(parts, key).len() as int;
    0 < held < parts.len() && text == warning(key, held, parts.len() as int)
}

/// A reconciliation warns of exactly the channels that some of the states carry and others do
/// not, each with the number of those that do and the number of all.
pub proof fn lemma_warns_of_what_is_not_everywhere(
    parts: Seq<RuffleState>,
    counts: OrderedMap<String, usize>,
    text: Seq<char>,
)
    requires
        counts.wf(),
        counts_carriers(parts, counts@),
    ensures
        warnings_for(
            counts.sequence(),
            parts.len() as int,
            counts.sequence().len() as int,
        ).contains(text) <==> exists|key: Seq<char>| #[trigger] warns_of(parts, key, text),
{
    let s = counts.sequence();
    let n = parts.len() as int;
    let m = s.len() as int;
    lemma_warned(s, n, m, text);
    if exists|key: Seq<char>| #[trigger] warns_of(parts, key, text) {
        let key = choose|key: Seq<char>| #[trigger] warns_of(parts, key, text);
        lemma_carriers_are_counted(parts, key);
        lemma_counted_at(counts, key);
        assert(counts@.contains_key(key));
        let p = choose|p: int| 0 <= p < m && (#[trigger] s[p]).0@ == key;
        assert(s[p].1 == counts@[key]);
        assert(speaks(s[p], n, text));
    }
    if warnings_for(s, n, m).contains(text) {
        let p = choose|p: int| 0 <= p < m && #[trigger] speaks(s[p], n, text);
        let key = s[p].0@;
        lemma_carriers_are_counted(parts, key);
        lemma_counted_at(counts, key);
        assert(counts@.contains_key(key));
        assert(counts@[key] == carriers(parts, n, key));
        assert(warns_of(parts, key, text));
    }
}

spec fn speaks(entry: (String, usize), n: int, text: Seq<char>) -> bool {
    entry.1 < n && text == warning(entry.0@, entry.1 as int, n)
}

proof fn lemma_warned(s: Seq<(String, usize)>, n: int, m: int, text: Seq<char>)
    requires
        0 <= m <= s.len(),
    ensures
        warnings_for(s, n, m).contains(text) <==> exists|p: int|
            0 <= p < m && #[trigger] speaks(s[p], n, text),
    decreases m,
{
    if m > 0 {
        lemma_warned(s, n, m - 1, text);
        let before = warnings_for(s, n, m - 1);
        lemma_pushed(before, warning(s[m - 1].0@, s[m - 1].1 as int, n), text);
        if before.contains(text) {
            let p = choose|p: int| 0 <= p < m - 1 && #[trigger] speaks(s[p], n, text);
            assert(0 <= p < m && speaks(s[p], n, text));
        }
        if s[m - 1].1 < n && text == warning(s[m - 1].0@, s[m - 1].1 as int, n) {
            assert(speaks(s[m - 1], n, text));
        }
    }
}

} // verus!
