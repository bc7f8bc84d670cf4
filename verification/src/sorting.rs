//! Stable sorting by integer keys.
use vstd::prelude::*;

verus! {

/// Position `a` sorts before position `b`: by its key, then by itself.
pub open spec fn sorts_before(keys: Seq<u64>, a: int, b: int) -> bool {
    keys[a] < keys[b] || (keys[a] == keys[b] && a < b)
}

/// `order` lists positions in strictly increasing order of key and position.
pub open spec fn in_order(keys: Seq<u64>, order: Seq<usize>) -> bool {
    forall|i: int, j: int|
        #![trigger order[i], order[j]]
        0 <= i < j < order.len() ==> sorts_before(keys, order[i] as int, order[j] as int)
}

/// `order` lists every position from `low` up to `high`, each once.
pub open spec fn lists(order: Seq<usize>, low: int, high: int) -> bool {
    &&& order.len() == high - low
    &&& forall|i: int| 0 <= i < order.len() ==> low <= #[trigger] order[i] < high
    &&& forall|x: usize| low <= x < high ==> #[trigger] order.contains(x)
}

/// `order` is the one stable sort of `keys`.
pub open spec fn sorts(keys: Seq<u64>, order: Seq<usize>) -> bool {
    in_order(keys, order) && lists(order, 0, keys.len() as int)
}

/// Lists the positions of `keys` in increasing order of key, equal keys in the
/// order in which they stand.
pub fn sort_positions(keys: &Vec<u64>) -> (order: Vec<usize>)
    ensures
        sorts(keys@, order@),
{
    sort_between(keys, 0, keys.len())
}

fn sort_between(keys: &Vec<u64>, low: usize, high: usize) -> (order: Vec<usize>)
    requires
        low <= high <= keys.len(),
    ensures
        in_order(keys@, order@),
        lists(order@, low as int, high as int),
    decreases high - low,
{
    if high - low <= 1 {
        let mut order: Vec<usize> = Vec::new();
        if low < high {
            order.push(low);
            assert(order@[0] == low);
        }
        return order;
    }
    let mid: usize = low + (high - low) / 2;
    let left = sort_between(keys, low, mid);
    let right = sort_between(keys, mid, high);
    let order = interleave(keys, &left, &right, Ghost(low as int), Ghost(mid as int), Ghost(high as int));
    order
}

fn interleave(
    keys: &Vec<u64>,
    left: &Vec<usize>,
    right: &Vec<usize>,
    Ghost(low): Ghost<int>,
    Ghost(mid): Ghost<int>,
    Ghost(high): Ghost<int>,
) -> (order: Vec<usize>)
    requires
        0 <= low <= mid <= high <= keys.len(),
        in_order(keys@, left@),
        in_order(keys@, right@),
        lists(left@, low, mid),
        lists(right@, mid, high),
    ensures
        in_order(keys@, order@),
        lists(order@, low, high),
{
    let mut order: Vec<usize> = Vec::new();
    let mut i: usize = 0;
    let mut j: usize = 0;
    while i < left.len() || j < right.len()
        invariant
            0 <= low <= mid <= high <= keys.len(),
            in_order(keys@, left@),
            in_order(keys@, right@),
            lists(left@, low, mid),
            lists(right@, mid, high),
            i <= left.len(),
            j <= right.len(),
            order.len() == i + j,
            in_order(keys@, order@),
            forall|k: int| 0 <= k < order.len() ==> low <= #[trigger] order@[k] < high,
            forall|a: int| 0 <= a < i ==> #[trigger] order@.contains(left@[a]),
            forall|b: int| 0 <= b < j ==> #[trigger] order@.contains(right@[b]),
            forall|k: int, a: int|
                #![trigger order@[k], left@[a]]
                0 <= k < order.len() && i <= a < left.len() ==> sorts_before(
                    keys@,
                    order@[k] as int,
                    left@[a] as int,
                ),
            forall|k: int, b: int|
                #![trigger order@[k], right@[b]]
                0 <= k < order.len() && j <= b < right.len() ==> sorts_before(
                    keys@,
                    order@[k] as int,
                    right@[b] as int,
                ),
        decreases left.len() + right.len() - i - j,
    {
        let ghost before = order@;
        let take_left: bool = if i < left.len() {
            j >= right.len() || keys[left[i]] <= keys[right[j]]
        } else {
            false
        };
        let next: usize = if take_left { left[i] } else { right[j] };
        order.push(next);
        proof {
            assert(order@[before.len() as int] == next);
            assert forall|a: int| 0 <= a < i implies #[trigger] order@.contains(left@[a]) by {
                let k = choose|k: int| 0 <= k < before.len() && before[k] == left@[a];
                assert(before.contains(left@[a]));
                assert(order@[k] == left@[a]);
            }
            assert forall|b: int| 0 <= b < j implies #[trigger] order@.contains(right@[b]) by {
                assert(before.contains(right@[b]));
                let k = choose|k: int| 0 <= k < before.len() && before[k] == right@[b];
                assert(order@[k] == right@[b]);
            }
        }
        if take_left {
            i += 1;
        } else {
            j += 1;
        }
    }
    proof {
        assert forall|x: usize| low <= x < high implies #[trigger] order@.contains(x) by {
            if x < mid {
                assert(left@.contains(x));
                let a = choose|a: int| 0 <= a < left@.len() && left@[a] == x;
                assert(order@.contains(left@[a]));
            } else {
                assert(right@.contains(x));
                let b = choose|b: int| 0 <= b < right@.len() && right@[b] == x;
                assert(order@.contains(right@[b]));
            }
        }
    }
    order
}

/// There is only one stable sort.
pub proof fn lemma_sort_unique(keys: Seq<u64>, s: Seq<usize>, t: Seq<usize>)
    requires
        sorts(keys, s),
        sorts(keys, t),
    ensures
        s == t,
{
    lemma_sort_unique_below(keys, s, t, s.len());
    assert(s =~= t);
}

proof fn lemma_sort_unique_below(keys: Seq<u64>, s: Seq<usize>, t: Seq<usize>, n: nat)
    requires
        sorts(keys, s),
        sorts(keys, t),
        n <= s.len(),
    ensures
        forall|i: int| 0 <= i < n ==> s[i] == t[i],
    decreases n,
{
    if n > 0 {
        lemma_sort_unique_below(keys, s, t, (n - 1) as nat);
        let m = n - 1;
        lemma_sort_not_later(keys, s, t, m);
        lemma_sort_not_later(keys, t, s, m);
    }
}

/// With equal positions below `m`, the one of `t` at `m` stands in `s` at `m` or after.
proof fn lemma_sort_not_later(keys: Seq<u64>, s: Seq<usize>, t: Seq<usize>, m: int)
    requires
        sorts(keys, s),
        sorts(keys, t),
        0 <= m < s.len(),
        forall|i: int| 0 <= i < m ==> s[i] == t[i],
    ensures
        !sorts_before(keys, t[m] as int, s[m] as int),
{
    assert(s.contains(t[m]));
    let p = choose|p: int| 0 <= p < s.len() && s[p] == t[m];
    if p < m {
        assert(t[p] == t[m]);
        assert(sorts_before(keys, t[p] as int, t[m] as int));
    } else if p > m {
        assert(sorts_before(keys, s[m] as int, s[p] as int));
    }
}

} // verus!
