//! Pooling of ordered maps: the union of two maps by key, shared keys combined.
use crate::ordered::{
    holds_key, increasing, lemma_entry, map_of, position, MapKey, OrderedMap,
};
use vstd::prelude::*;

verus! {

/// A value that can be combined with another one kept under the same key.
pub trait Pool: Sized {
    /// The two values combined.
    spec fn combined(a: Self, b: Self) -> Self;

    /// Combines another value into this one.
    fn pool_in(&mut self, other: &Self)
        ensures
            *final(self) == Self::combined(*old(self), *other),
    ;

    /// A copy of the value.
    fn copied(&self) -> (copy: Self)
        ensures
            copy == *self,
    ;
}

/// The union of two maps, shared keys combined.
pub open spec fn united<K, V: Pool>(a: Map<K, V>, b: Map<K, V>) -> Map<K, V> {
    Map::new(
        |k: K| a.contains_key(k) || b.contains_key(k),
        |k: K|
            if a.contains_key(k) && b.contains_key(k) {
                V::combined(a[k], b[k])
            } else if a.contains_key(k) {
                a[k]
            } else {
                b[k]
            },
    )
}

/// The entries before `j` are a map of their own.
pub proof fn lemma_prefix_map<K: MapKey, V>(s: Seq<(K, V)>, j: int)
    requires
        increasing(s),
        0 <= j < s.len(),
    ensures
        increasing(s.take(j)),
        increasing(s.take(j + 1)),
        !map_of(s.take(j)).contains_key(s[j].0@),
        map_of(s.take(j + 1)) == map_of(s.take(j)).insert(s[j].0@, s[j].1),
{
    let p = s.take(j);
    let q = s.take(j + 1);
    let k = s[j].0@;
    assert(increasing(p)) by {
        assert forall|a: int, b: int| #![trigger p[a], p[b]] 0 <= a < b < p.len() implies K::before(
            p[a].0@,
            p[b].0@,
        ) by {
            assert(K::before(s[a].0@, s[b].0@));
        }
    }
    assert(increasing(q)) by {
        assert forall|a: int, b: int| #![trigger q[a], q[b]] 0 <= a < b < q.len() implies K::before(
            q[a].0@,
            q[b].0@,
        ) by {
            assert(K::before(s[a].0@, s[b].0@));
        }
    }
    if holds_key(p, k) {
        let x = position(p, k);
        assert(p[x].0@ == k);
        assert(K::before(s[x].0@, s[j].0@));
        K::lemma_order(k, k, k);
    }
    let m = map_of(p).insert(k, s[j].1);
    let n = map_of(q);
    assert forall|x: K::V| #[trigger] n.contains_key(x) == m.contains_key(x) by {
        if n.contains_key(x) {
            assert(holds_key(q, x));
            let y = position(q, x);
            assert(q[y].0@ == x);
            if y < j {
                assert(p[y].0@ == x);
            }
        }
        if m.contains_key(x) {
            if x == k {
                assert(q[j].0@ == k);
            } else {
                assert(holds_key(p, x));
                let y = position(p, x);
                assert(p[y].0@ == x);
                assert(q[y].0@ == x);
            }
        }
    }
    assert forall|x: K::V| n.contains_key(x) implies #[trigger] n[x] == m[x] by {
        if x == k {
            assert(q[j].0@ == k);
            lemma_entry(q, j);
        } else {
            assert(m.contains_key(x));
            assert(holds_key(p, x));
            let y = position(p, x);
            assert(p[y].0@ == x);
            assert(q[y] == p[y]);
            lemma_entry(p, y);
            lemma_entry(q, y);
        }
    }
    assert(n =~= m);
}

/// Pools every entry of `part` into `total`.
pub fn unite<K: MapKey, V: Pool>(total: &mut OrderedMap<K, V>, part: &OrderedMap<K, V>)
    requires
        old(total).wf(),
        part.wf(),
    ensures
        final(total).wf(),
        final(total)@ == united(old(total)@, part@),
{
    let ghost start = total@;
    let ghost s = part.sequence();
    let mut j: usize = 0;
    proof {
        assert(map_of(s.take(0)) =~= Map::<K::V, V>::empty());
        assert(start =~= united(start, map_of(s.take(0))));
    }
    while j < part.len()
        invariant
            total.wf(),
            part.wf(),
            s == part.sequence(),
            j <= s.len(),
            total@ == united(start, map_of(s.take(j as int))),
        decreases s.len() - j,
    {
        proof {
            lemma_prefix_map(s, j as int);
        }
        let ghost k = s[j as int].0@;
        let ghost before = total@;
        let ghost m = map_of(s.take(j as int));
        let key = part.key_at(j);
        match total.find(key) {
            Some(i) => {
                let mut value = total.value_at(i).copied();
                value.pool_in(part.value_at(j));
                total.set_value(i, value);
                assert(total@ =~= united(start, m.insert(k, s[j as int].1)));
            },
            None => {
                total.insert(key.duplicate(), part.value_at(j).copied());
                assert(total@ =~= united(start, m.insert(k, s[j as int].1)));
            },
        }
        j += 1;
    }
    proof {
        assert(s.take(s.len() as int) =~= s);
    }
}

/// A copy of a map.
pub fn duplicate_map<K: MapKey, V: Pool>(map: &OrderedMap<K, V>) -> (copy: OrderedMap<K, V>)
    requires
        map.wf(),
    ensures
        copy.wf(),
        copy@ == map@,
{
    let mut copy: OrderedMap<K, V> = OrderedMap::new();
    unite(&mut copy, map);
    assert(copy@ =~= map@);
    copy
}

/// A map with the value under `from` moved to `to`, combined with what stands there.
pub open spec fn moved<K, V: Pool>(m: Map<K, V>, from: K, to: K) -> Map<K, V> {
    let rest = m.remove(from);
    if !m.contains_key(from) {
        m
    } else if rest.contains_key(to) {
        rest.insert(to, V::combined(rest[to], m[from]))
    } else {
        rest.insert(to, m[from])
    }
}

/// Moves the value under one key to another, combining it with what stands there.
pub fn move_entry<K: MapKey, V: Pool>(map: &mut OrderedMap<K, V>, from: &K, to: K)
    requires
        old(map).wf(),
    ensures
        final(map).wf(),
        final(map)@ == moved(old(map)@, from@, to@),
{
    match map.remove(from) {
        Some(value) => {
            match map.find(&to) {
                Some(i) => {
                    let mut existing = map.value_at(i).copied();
                    existing.pool_in(&value);
                    map.set_value(i, existing);
                },
                None => {
                    map.insert(to, value);
                },
            }
        },
        None => {
            assert(map@ =~= old(map)@);
        },
    }
}

/// Two maps that hold the same values under the same entries are equal.
pub proof fn lemma_mapped<K: MapKey, V, W>(s: Seq<(K, V)>, t: Seq<(K, W)>, f: spec_fn(V) -> W)
    requires
        increasing(s),
        s.len() == t.len(),
        forall|i: int| 0 <= i < s.len() ==> #[trigger] t[i] == (s[i].0, f(s[i].1)),
    ensures
        increasing(t),
        map_of(t) == map_of(s).map_values(f),
{
    assert(increasing(t)) by {
        assert forall|a: int, b: int| #![trigger t[a], t[b]] 0 <= a < b < t.len() implies K::before(
            t[a].0@,
            t[b].0@,
        ) by {
            assert(K::before(s[a].0@, s[b].0@));
        }
    }
    let m = map_of(s).map_values(f);
    let n = map_of(t);
    assert forall|x: K::V| #[trigger] n.contains_key(x) == m.contains_key(x) by {
        if n.contains_key(x) {
            assert(holds_key(t, x));
            let p = position(t, x);
            assert(t[p].0@ == x);
            assert(s[p].0@ == x);
            assert(holds_key(s, x));
        }
        if m.contains_key(x) {
            assert(holds_key(s, x));
            let p = position(s, x);
            assert(s[p].0@ == x);
            assert(t[p].0@ == x);
            assert(holds_key(t, x));
        }
    }
    assert forall|x: K::V| n.contains_key(x) implies #[trigger] n[x] == m[x] by {
        assert(m.contains_key(x));
        assert(holds_key(s, x));
        let p = position(s, x);
        assert(s[p].0@ == x);
        assert(t[p].0@ == x);
        lemma_entry(s, p);
        lemma_entry(t, p);
    }
    assert(n =~= m);
}

} // verus!
