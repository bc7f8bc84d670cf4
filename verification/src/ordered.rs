//! A map that keeps its entries in key order.
//!
//! The entries are held in one strictly increasing sequence, so two maps with
//! the same contents are laid out identically.
use vstd::prelude::*;
use vstd::utf8::{encode_utf8, encode_utf8_decode_utf8};

verus! {

/// Where one key stands relative to another.
#[derive(Clone, Copy, Debug, PartialEq, Eq, Structural)]
pub enum Place {
    /// It comes first.
    Before,
    /// The two are the same key.
    Same,
    /// It comes later.
    After,
}

/// A key with a strict total order on its views.
pub trait MapKey: View + Sized {
    /// `a` comes before `b`.
    spec fn before(a: Self::V, b: Self::V) -> bool;

    /// The order is strict, transitive and total.
    proof fn lemma_order(a: Self::V, b: Self::V, c: Self::V)
        ensures
            !Self::before(a, a),
            Self::before(a, b) && Self::before(b, c) ==> Self::before(a, c),
            a == b || Self::before(a, b) || Self::before(b, a),
    ;

    /// Where `self` stands relative to `other`.
    fn place(&self, other: &Self) -> (p: Place)
        ensures
            p == Place::Before <==> Self::before(self@, other@),
            p == Place::After <==> Self::before(other@, self@),
            p == Place::Same <==> self@ == other@,
    ;

    /// A copy of the key.
    fn duplicate(&self) -> (copy: Self)
        ensures
            copy == *self,
    ;
}

/// `a` and `b` agree below `i`, where `a` ends or holds the smaller byte.
pub open spec fn first_difference(a: Seq<u8>, b: Seq<u8>, i: int) -> bool {
    &&& 0 <= i <= a.len()
    &&& i < b.len()
    &&& forall|j: int| 0 <= j < i ==> a[j] == b[j]
    &&& i == a.len() || a[i] < b[i]
}

/// `a` comes before `b` in the lexicographic order of bytes.
pub open spec fn bytes_before(a: Seq<u8>, b: Seq<u8>) -> bool {
    exists|i: int| first_difference(a, b, i)
}

/// `a` comes before `b` in the lexicographic order of their UTF-8 bytes.
pub open spec fn text_before(a: Seq<char>, b: Seq<char>) -> bool {
    bytes_before(encode_utf8(a), encode_utf8(b))
}

proof fn lemma_bytes_transitive(a: Seq<u8>, b: Seq<u8>, c: Seq<u8>)
    requires
        bytes_before(a, b),
        bytes_before(b, c),
    ensures
        bytes_before(a, c),
{
    let i = choose|i: int| first_difference(a, b, i);
    let j = choose|j: int| first_difference(b, c, j);
    if i <= j {
        assert(first_difference(a, c, i));
    } else {
        assert(first_difference(a, c, j));
    }
}

proof fn lemma_bytes_irreflexive(a: Seq<u8>)
    ensures
        !bytes_before(a, a),
{
}

proof fn lemma_bytes_exclusive(a: Seq<u8>, b: Seq<u8>)
    ensures
        bytes_before(a, b) ==> !bytes_before(b, a),
{
    if bytes_before(a, b) && bytes_before(b, a) {
        lemma_bytes_transitive(a, b, a);
    }
}

proof fn lemma_bytes_total(a: Seq<u8>, b: Seq<u8>, i: int)
    requires
        0 <= i <= a.len(),
        i <= b.len(),
        forall|j: int| 0 <= j < i ==> a[j] == b[j],
    ensures
        a == b || bytes_before(a, b) || bytes_before(b, a),
    decreases a.len() - i,
{
    if i < a.len() && i < b.len() && a[i] == b[i] {
        lemma_bytes_total(a, b, i + 1);
    } else if i == a.len() && i == b.len() {
        assert(a =~= b);
    } else if i == a.len() {
        assert(first_difference(a, b, i));
    } else if i == b.len() {
        assert(first_difference(b, a, i));
    } else if a[i] < b[i] {
        assert(first_difference(a, b, i));
    } else {
        assert(first_difference(b, a, i));
    }
}

/// The order of texts is strict, transitive and total.
pub proof fn lemma_text_order(a: Seq<char>, b: Seq<char>, c: Seq<char>)
    ensures
        !text_before(a, a),
        text_before(a, b) && text_before(b, c) ==> text_before(a, c),
        a == b || text_before(a, b) || text_before(b, a),
{
    lemma_bytes_irreflexive(encode_utf8(a));
    if text_before(a, b) && text_before(b, c) {
        lemma_bytes_transitive(encode_utf8(a), encode_utf8(b), encode_utf8(c));
    }
    lemma_bytes_total(encode_utf8(a), encode_utf8(b), 0);
    encode_utf8_decode_utf8(a);
    encode_utf8_decode_utf8(b);
}

/// Where one text stands relative to another, by their bytes.
pub fn text_place(a: &str, b: &str) -> (p: Place)
    ensures
        p == Place::Before <==> text_before(a@, b@),
        p == Place::After <==> text_before(b@, a@),
        p == Place::Same <==> a@ == b@,
{
    let x = a.as_bytes();
    let y = b.as_bytes();
    let ghost u = encode_utf8(a@);
    let ghost v = encode_utf8(b@);
    proof {
        lemma_text_order(a@, b@, a@);
        lemma_text_order(b@, a@, b@);
        lemma_bytes_exclusive(u, v);
    }
    let mut i: usize = 0;
    while i < x.len() && i < y.len()
        invariant
            x@ == u,
            y@ == v,
            u == encode_utf8(a@),
            v == encode_utf8(b@),
            i <= x.len(),
            i <= y.len(),
            forall|j: int| 0 <= j < i ==> u[j] == v[j],
            !text_before(a@, a@),
            !text_before(b@, b@),
            bytes_before(u, v) ==> !bytes_before(v, u),
        decreases x.len() - i,
    {
        if x[i] < y[i] {
            assert(first_difference(u, v, i as int));
            return Place::Before;
        }
        if y[i] < x[i] {
            assert(first_difference(v, u, i as int));
            return Place::After;
        }
        i += 1;
    }
    if i < y.len() {
        assert(first_difference(u, v, i as int));
        Place::Before
    } else if i < x.len() {
        assert(first_difference(v, u, i as int));
        Place::After
    } else {
        proof {
            assert(u =~= v);
            encode_utf8_decode_utf8(a@);
            encode_utf8_decode_utf8(b@);
        }
        Place::Same
    }
}

impl MapKey for String {
    open spec fn before(a: Seq<char>, b: Seq<char>) -> bool {
        text_before(a, b)
    }

    proof fn lemma_order(a: Seq<char>, b: Seq<char>, c: Seq<char>) {
        lemma_text_order(a, b, c);
    }

    fn place(&self, other: &String) -> (p: Place) {
        text_place(self.as_str(), other.as_str())
    }

    fn duplicate(&self) -> (copy: String) {
        self.clone()
    }
}

/// A map whose entries are kept in strictly increasing key order.
#[derive(Clone, Debug, PartialEq, Eq)]
pub struct OrderedMap<K, V> {
    items: Vec<(K, V)>,
}

/// The keys of a sequence of entries strictly increase.
pub open spec fn increasing<K: MapKey, V>(s: Seq<(K, V)>) -> bool {
    forall|i: int, j: int|
        #![trigger s[i], s[j]]
        0 <= i < j < s.len() ==> K::before(s[i].0@, s[j].0@)
}

/// Some entry has the key `k`.
pub open spec fn holds_key<K: MapKey, V>(s: Seq<(K, V)>, k: K::V) -> bool {
    exists|i: int| 0 <= i < s.len() && (#[trigger] s[i]).0@ == k
}

/// The position of the entry with the key `k`.
pub open spec fn position<K: MapKey, V>(s: Seq<(K, V)>, k: K::V) -> int {
    choose|i: int| 0 <= i < s.len() && (#[trigger] s[i]).0@ == k
}

/// The map from the keys of a sequence of entries to their values.
pub open spec fn map_of<K: MapKey, V>(s: Seq<(K, V)>) -> Map<K::V, V> {
    Map::new(|k: K::V| holds_key(s, k), |k: K::V| s[position(s, k)].1)
}

/// Each entry is what the map holds under its key.
pub proof fn lemma_entry<K: MapKey, V>(s: Seq<(K, V)>, i: int)
    requires
        increasing(s),
        0 <= i < s.len(),
    ensures
        map_of(s).contains_key(s[i].0@),
        map_of(s)[s[i].0@] == s[i].1,
        position(s, s[i].0@) == i,
{
    let k = s[i].0@;
    assert(holds_key(s, k));
    let p = position(s, k);
    assert(0 <= p < s.len() && s[p].0@ == k);
    K::lemma_order(k, k, k);
    if p < i {
        assert(K::before(s[p].0@, s[i].0@));
    } else if i < p {
        assert(K::before(s[i].0@, s[p].0@));
    }
}

/// Two maps with the same contents hold the same keys and values in the same order.
pub proof fn lemma_canonical<K: MapKey, V>(s: Seq<(K, V)>, t: Seq<(K, V)>)
    requires
        increasing(s),
        increasing(t),
        map_of(s) == map_of(t),
    ensures
        s.len() == t.len(),
        forall|i: int|
            #![trigger s[i]]
            #![trigger t[i]]
            0 <= i < s.len() ==> s[i].0@ == t[i].0@ && s[i].1 == t[i].1,
{
    lemma_canonical_below(s, t, if s.len() <= t.len() { s.len() } else { t.len() });
    if s.len() < t.len() {
        let n = s.len() as int;
        lemma_entry(t, n);
        assert(map_of(s).contains_key(t[n].0@));
        let p = position(s, t[n].0@);
        assert(holds_key(s, t[n].0@));
        assert(s[p].0@ == t[n].0@);
        assert(s[p].0@ == t[p].0@);
        assert(K::before(t[p].0@, t[n].0@));
        K::lemma_order(t[n].0@, t[n].0@, t[n].0@);
    } else if t.len() < s.len() {
        let n = t.len() as int;
        lemma_entry(s, n);
        assert(map_of(t).contains_key(s[n].0@));
        let p = position(t, s[n].0@);
        assert(holds_key(t, s[n].0@));
        assert(t[p].0@ == s[n].0@);
        assert(s[p].0@ == t[p].0@);
        assert(K::before(s[p].0@, s[n].0@));
        K::lemma_order(s[n].0@, s[n].0@, s[n].0@);
    }
}

proof fn lemma_canonical_below<K: MapKey, V>(s: Seq<(K, V)>, t: Seq<(K, V)>, n: nat)
    requires
        increasing(s),
        increasing(t),
        map_of(s) == map_of(t),
        n <= s.len(),
        n <= t.len(),
    ensures
        forall|i: int|
            #![trigger s[i]]
            #![trigger t[i]]
            0 <= i < n ==> s[i].0@ == t[i].0@ && s[i].1 == t[i].1,
    decreases n,
{
    if n > 0 {
        lemma_canonical_below(s, t, (n - 1) as nat);
        let m = (n - 1) as int;
        lemma_entry(s, m);
        lemma_entry(t, m);
        lemma_not_earlier(s, t, m);
        lemma_not_earlier(t, s, m);
        K::lemma_order(s[m].0@, t[m].0@, s[m].0@);
    }
}

/// With equal keys below `m`, the key of `s` at `m` does not come before that of `t`.
proof fn lemma_not_earlier<K: MapKey, V>(s: Seq<(K, V)>, t: Seq<(K, V)>, m: int)
    requires
        increasing(s),
        increasing(t),
        map_of(s) == map_of(t),
        0 <= m < s.len(),
        m < t.len(),
        forall|i: int| #![trigger s[i]] 0 <= i < m ==> s[i].0@ == t[i].0@,
    ensures
        !K::before(s[m].0@, t[m].0@),
{
    let k = s[m].0@;
    if K::before(k, t[m].0@) {
        lemma_entry(s, m);
        assert(map_of(t).contains_key(k));
        assert(holds_key(t, k));
        let p = position(t, k);
        assert(t[p].0@ == k);
        K::lemma_order(k, k, k);
        if p < m {
            assert(s[p].0@ == k);
            assert(K::before(s[p].0@, s[m].0@));
        } else if p > m {
            assert(K::before(t[m].0@, t[p].0@));
            K::lemma_order(k, t[m].0@, k);
        }
    }
}

impl<K: MapKey, V> View for OrderedMap<K, V> {
    type V = Map<K::V, V>;

    open spec fn view(&self) -> Map<K::V, V> {
        map_of(self.sequence())
    }
}

impl<K: MapKey, V> OrderedMap<K, V> {
    /// The entries in key order.
    pub closed spec fn sequence(&self) -> Seq<(K, V)> {
        self.items@
    }

    /// The keys strictly increase.
    pub open spec fn wf(&self) -> bool {
        increasing(self.sequence())
    }

    /// An empty map.
    pub fn new() -> (m: Self)
        ensures
            m.wf(),
            m.sequence() == Seq::<(K, V)>::empty(),
            m@ == Map::<K::V, V>::empty(),
    {
        let m = OrderedMap { items: Vec::new() };
        assert(m@ =~= Map::<K::V, V>::empty());
        m
    }

    /// The number of entries.
    pub fn len(&self) -> (n: usize)
        ensures
            n == self.sequence().len(),
    {
        self.items.len()
    }

    /// Whether there is no entry.
    pub fn is_empty(&self) -> (r: bool)
        ensures
            r == (self.sequence().len() == 0),
    {
        self.items.len() == 0
    }

    /// The key at a position in key order.
    pub fn key_at(&self, i: usize) -> (k: &K)
        requires
            i < self.sequence().len(),
        ensures
            *k == self.sequence()[i as int].0,
    {
        &self.items[i].0
    }

    /// The value at a position in key order.
    pub fn value_at(&self, i: usize) -> (v: &V)
        requires
            i < self.sequence().len(),
        ensures
            *v == self.sequence()[i as int].1,
    {
        &self.items[i].1
    }

    /// The position of a key, and whether it is there; where it is not, the
    /// position at which it belongs.
    fn locate(&self, key: &K) -> (found: (usize, bool))
        requires
            self.wf(),
        ensures
            found.0 <= self.sequence().len(),
            forall|i: int| 0 <= i < found.0 ==> K::before(#[trigger] self.sequence()[i].0@, key@),
            found.1 ==> found.0 < self.sequence().len() && self.sequence()[found.0 as int].0@
                == key@,
            !found.1 ==> forall|i: int|
                found.0 <= i < self.sequence().len() ==> K::before(
                    key@,
                    #[trigger] self.sequence()[i].0@,
                ),
    {
        let mut low: usize = 0;
        let mut high: usize = self.items.len();
        while low < high
            invariant
                self.wf(),
                low <= high <= self.sequence().len(),
                self.sequence() == self.items@,
                forall|i: int| 0 <= i < low ==> K::before(#[trigger] self.sequence()[i].0@, key@),
                forall|i: int|
                    high <= i < self.sequence().len() ==> K::before(
                        key@,
                        #[trigger] self.sequence()[i].0@,
                    ),
            decreases high - low,
        {
            let mid: usize = low + (high - low) / 2;
            let ghost s = self.sequence();
            match self.items[mid].0.place(key) {
                Place::Before => {
                    assert forall|i: int| 0 <= i < mid + 1 implies K::before(
                        #[trigger] s[i].0@,
                        key@,
                    ) by {
                        if i < mid {
                            assert(K::before(s[i].0@, s[mid as int].0@));
                            K::lemma_order(s[i].0@, s[mid as int].0@, key@);
                        }
                    }
                    low = mid + 1;
                },
                Place::Same => {
                    assert forall|i: int| 0 <= i < mid implies K::before(
                        #[trigger] s[i].0@,
                        key@,
                    ) by {
                        assert(K::before(s[i].0@, s[mid as int].0@));
                    }
                    return (mid, true);
                },
                Place::After => {
                    assert forall|i: int| mid <= i < s.len() implies K::before(
                        key@,
                        #[trigger] s[i].0@,
                    ) by {
                        if i > mid {
                            assert(K::before(s[mid as int].0@, s[i].0@));
                            K::lemma_order(key@, s[mid as int].0@, s[i].0@);
                        }
                    }
                    high = mid;
                },
            }
        }
        (low, false)
    }

    /// The position of a key, where it is there.
    pub fn find(&self, key: &K) -> (found: Option<usize>)
        requires
            self.wf(),
        ensures
            found is Some <==> self@.contains_key(key@),
            found is Some ==> found->0 < self.sequence().len() && self.sequence()[found->0 as int].0@
                == key@ && self.sequence()[found->0 as int].1 == self@[key@],
    {
        let (i, there): (usize, bool) = self.locate(key);
        if there {
            proof {
                lemma_entry(self.sequence(), i as int);
            }
            Some(i)
        } else {
            proof {
                if holds_key(self.sequence(), key@) {
                    let p = position(self.sequence(), key@);
                    assert(self.sequence()[p].0@ == key@);
                    K::lemma_order(key@, key@, key@);
                }
            }
            None
        }
    }

    /// Whether the map has a key.
    pub fn contains_key(&self, key: &K) -> (r: bool)
        requires
            self.wf(),
        ensures
            r == self@.contains_key(key@),
    {
        self.find(key).is_some()
    }

    /// The value under a key.
    pub fn get(&self, key: &K) -> (v: Option<&V>)
        requires
            self.wf(),
        ensures
            v is Some <==> self@.contains_key(key@),
            v is Some ==> *v->0 == self@[key@],
    {
        match self.find(key) {
            Some(i) => Some(&self.items[i].1),
            None => None,
        }
    }

    /// Replaces the value at a position in key order.
    pub fn set_value(&mut self, i: usize, value: V)
        requires
            old(self).wf(),
            i < old(self).sequence().len(),
        ensures
            final(self).wf(),
            final(self).sequence() == old(self).sequence().update(
                i as int,
                (old(self).sequence()[i as int].0, value),
            ),
            final(self)@ == old(self)@.insert(old(self).sequence()[i as int].0@, value),
    {
        let ghost s = self.sequence();
        let (key, last): (K, V) = self.items.remove(i);
        self.items.insert(i, (key, value));
        proof {
            let t = self.sequence();
            assert(t =~= s.update(i as int, (s[i as int].0, value)));
            assert(increasing(t)) by {
                assert forall|a: int, b: int|
                    #![trigger t[a], t[b]]
                    0 <= a < b < t.len() implies K::before(t[a].0@, t[b].0@) by {
                    assert(K::before(s[a].0@, s[b].0@));
                }
            }
            lemma_map_step(s, t, s[i as int].0@, value, i as int);
        }
    }

    /// Puts a value under a key, and returns what stood there before.
    pub fn insert(&mut self, key: K, value: V) -> (before: Option<V>)
        requires
            old(self).wf(),
        ensures
            final(self).wf(),
            final(self)@ == old(self)@.insert(key@, value),
            before is Some <==> old(self)@.contains_key(key@),
            before is Some ==> before->0 == old(self)@[key@],
    {
        let ghost s = self.sequence();
        let (i, there): (usize, bool) = self.locate(&key);
        if there {
            proof {
                lemma_entry(s, i as int);
            }
            let (kept, last): (K, V) = self.items.remove(i);
            self.items.insert(i, (kept, value));
            proof {
                let t = self.sequence();
                assert(t =~= s.update(i as int, (s[i as int].0, value)));
                assert(increasing(t)) by {
                    assert forall|a: int, b: int|
                        #![trigger t[a], t[b]]
                        0 <= a < b < t.len() implies K::before(t[a].0@, t[b].0@) by {
                        assert(K::before(s[a].0@, s[b].0@));
                    }
                }
                lemma_map_step(s, t, key@, value, i as int);
            }
            Some(last)
        } else {
            let ghost k = key;
            self.items.insert(i, (key, value));
            proof {
                let t = self.sequence();
                assert(t =~= s.insert(i as int, (k, value)));
                assert(increasing(t)) by {
                    assert forall|a: int, b: int|
                        #![trigger t[a], t[b]]
                        0 <= a < b < t.len() implies K::before(t[a].0@, t[b].0@) by {
                        let x = if a < i {
                            a
                        } else {
                            a - 1
                        };
                        let y = if b < i {
                            b
                        } else {
                            b - 1
                        };
                        if a == i {
                            assert(K::before(k@, s[y].0@));
                        } else if b == i {
                            assert(K::before(s[x].0@, k@));
                        } else {
                            assert(K::before(s[x].0@, s[y].0@));
                        }
                    }
                }
                assert(!holds_key(s, k@)) by {
                    if holds_key(s, k@) {
                        let p = position(s, k@);
                        assert(s[p].0@ == k@);
                        K::lemma_order(k@, k@, k@);
                    }
                }
                lemma_map_step(s, t, k@, value, i as int);
            }
            None
        }
    }

    /// Takes the entry of a key out, and returns its value.
    pub fn remove(&mut self, key: &K) -> (removed: Option<V>)
        requires
            old(self).wf(),
        ensures
            final(self).wf(),
            final(self)@ == old(self)@.remove(key@),
            removed is Some <==> old(self)@.contains_key(key@),
            removed is Some ==> removed->0 == old(self)@[key@],
    {
        let ghost s = self.sequence();
        match self.find(key) {
            Some(i) => {
                let (kept, last): (K, V) = self.items.remove(i);
                proof {
                    let t = self.sequence();
                    assert(t =~= s.remove(i as int));
                    assert(increasing(t)) by {
                        assert forall|a: int, b: int|
                            #![trigger t[a], t[b]]
                            0 <= a < b < t.len() implies K::before(t[a].0@, t[b].0@) by {
                            let x = if a < i {
                                a
                            } else {
                                a + 1
                            };
                            let y = if b < i {
                                b
                            } else {
                                b + 1
                            };
                            assert(K::before(s[x].0@, s[y].0@));
                        }
                    }
                    lemma_map_removed(s, t, key@, i as int);
                }
                Some(last)
            },
            None => {
                assert(self@ =~= self@.remove(key@));
                None
            },
        }
    }
}

/// Replacing or adding one entry inserts it into the map.
proof fn lemma_map_step<K: MapKey, V>(s: Seq<(K, V)>, t: Seq<(K, V)>, k: K::V, v: V, at: int)
    requires
        increasing(s),
        increasing(t),
        0 <= at < t.len(),
        t[at].0@ == k,
        t[at].1 == v,
        (at < s.len() && s[at].0@ == k && t == s.update(at, t[at])) || (at <= s.len() && t
            == s.insert(at, t[at])),
    ensures
        map_of(t) == map_of(s).insert(k, v),
{
    let m = map_of(s).insert(k, v);
    let n = map_of(t);
    assert forall|x: K::V| #[trigger] n.contains_key(x) == m.contains_key(x) by {
        if n.contains_key(x) {
            let p = position(t, x);
            assert(holds_key(t, x));
            assert(t[p].0@ == x);
            if p != at {
                let q = if t == s.update(at, t[at]) || p < at {
                    p
                } else {
                    p - 1
                };
                assert(s[q] == t[p]);
                assert(holds_key(s, x));
            }
        }
        if m.contains_key(x) {
            if x == k {
                assert(t[at].0@ == x);
            } else {
                let p = position(s, x);
                assert(holds_key(s, x));
                assert(s[p].0@ == x);
                let q = if t == s.update(at, t[at]) || p < at {
                    p
                } else {
                    p + 1
                };
                assert(t[q] == s[p]);
                assert(holds_key(t, x));
            }
        }
    }
    assert forall|x: K::V| n.contains_key(x) implies #[trigger] n[x] == m[x] by {
        if x == k {
            lemma_entry(t, at);
        } else {
            assert(map_of(s).contains_key(x));
            assert(holds_key(s, x));
            let p = position(s, x);
            assert(s[p].0@ == x);
            let q = if t == s.update(at, t[at]) || p < at {
                p
            } else {
                p + 1
            };
            assert(t[q] == s[p]);
            lemma_entry(s, p);
            lemma_entry(t, q);
        }
    }
    assert(n =~= m);
}

/// Dropping one entry removes it from the map.
proof fn lemma_map_removed<K: MapKey, V>(s: Seq<(K, V)>, t: Seq<(K, V)>, k: K::V, at: int)
    requires
        increasing(s),
        increasing(t),
        0 <= at < s.len(),
        s[at].0@ == k,
        t == s.remove(at),
    ensures
        map_of(t) == map_of(s).remove(k),
{
    let m = map_of(s).remove(k);
    let n = map_of(t);
    assert forall|x: K::V| #[trigger] n.contains_key(x) == m.contains_key(x) by {
        if n.contains_key(x) {
            let p = position(t, x);
            assert(holds_key(t, x));
            assert(t[p].0@ == x);
            let q = if p < at {
                p
            } else {
                p + 1
            };
            assert(s[q] == t[p]);
            assert(holds_key(s, x));
            lemma_entry(s, q);
            lemma_entry(s, at);
        }
        if m.contains_key(x) {
            let p = position(s, x);
            assert(holds_key(s, x));
            assert(s[p].0@ == x);
            let q = if p < at {
                p
            } else {
                p - 1
            };
            assert(t[q] == s[p]);
            assert(holds_key(t, x));
        }
    }
    assert forall|x: K::V| n.contains_key(x) implies #[trigger] n[x] == m[x] by {
        assert(m.contains_key(x));
        assert(holds_key(s, x));
        let p = position(s, x);
        assert(s[p].0@ == x);
        let q = if p < at {
            p
        } else {
            p - 1
        };
        assert(t[q] == s[p]);
        lemma_entry(s, p);
        lemma_entry(t, q);
    }
    assert(n =~= m);
}

} // verus!
