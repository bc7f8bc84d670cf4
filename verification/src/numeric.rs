//! Sums and orderings of sequences of numbers.
use crate::double::{fadd, fcount, fdiv, feq, flt, fone, fzero, Double, SIGN_BIT};
use crate::sorting::{lemma_sort_unique, sort_positions, sorts, sorts_before};
use vstd::prelude::*;

verus! {

/// The sum of the numbers from `low` up to `high`, added from left to right.
pub open spec fn fsum(s: Seq<Double>, low: int, high: int) -> Double
    decreases high - low,
{
    if high <= low {
        fzero()
    } else {
        fadd(fsum(s, low, high - 1), s[high - 1])
    }
}

/// Adds numbers from left to right.
pub fn sum_between(s: &[Double], low: usize, high: usize) -> (total: Double)
    requires
        low <= high <= s@.len(),
    ensures
        total == fsum(s@, low as int, high as int),
{
    let mut total = Double::zero();
    let mut i: usize = low;
    while i < high
        invariant
            low <= i <= high <= s@.len(),
            total == fsum(s@, low as int, i as int),
        decreases high - i,
    {
        total = total + s[i];
        i += 1;
    }
    total
}

/// The position of a number in the total order of all encodings.
pub open spec fn total_key(x: Double) -> u64 {
    if x.bits >= SIGN_BIT {
        (u64::MAX - x.bits) as u64
    } else {
        (x.bits + SIGN_BIT) as u64
    }
}

/// The position of a number in the order of values, zeros of either sign alike.
pub open spec fn rank_key(x: Double) -> u64 {
    (x.rank() + SIGN_BIT) as u64
}

/// The keys of a sequence of numbers in the total order.
pub open spec fn total_keys(s: Seq<Double>) -> Seq<u64> {
    Seq::new(s.len(), |i: int| total_key(s[i]))
}

/// The key by which larger values come first; what is not a number comes last.
pub open spec fn descending_key(x: Double) -> u64 {
    if x.nan() {
        u64::MAX
    } else {
        (u64::MAX - rank_key(x)) as u64
    }
}

/// The keys by which larger values come first.
pub open spec fn descending_keys(s: Seq<Double>) -> Seq<u64> {
    Seq::new(s.len(), |i: int| descending_key(s[i]))
}

/// The one stable order of a sequence of keys.
pub open spec fn order_of(keys: Seq<u64>) -> Seq<usize> {
    choose|order: Seq<usize>| sorts(keys, order)
}

/// The numbers in increasing total order.
pub open spec fn ascending(s: Seq<Double>) -> Seq<Double> {
    Seq::new(s.len(), |i: int| s[order_of(total_keys(s))[i] as int])
}

/// The keys by which larger values come first tell values apart as `flt` does.
pub proof fn lemma_descending_key(x: Double, y: Double)
    requires
        !x.nan(),
        !y.nan(),
    ensures
        (descending_key(x) < descending_key(y)) == flt(y, x),
        (descending_key(x) == descending_key(y)) == feq(x, y),
{
}

/// The keys in the order of values tell values apart as `flt` does.
pub proof fn lemma_rank_key(x: Double, y: Double)
    requires
        !x.nan(),
        !y.nan(),
    ensures
        (rank_key(x) < rank_key(y)) == flt(x, y),
        (rank_key(x) == rank_key(y)) == feq(x, y),
{
}

fn total_key_of(x: Double) -> (key: u64)
    ensures
        key == total_key(x),
{
    if x.bits >= SIGN_BIT {
        u64::MAX - x.bits
    } else {
        x.bits + SIGN_BIT
    }
}

fn rank_key_of(x: Double) -> (key: u64)
    ensures
        key == rank_key(x),
{
    if x.bits >= SIGN_BIT {
        SIGN_BIT - (x.bits - SIGN_BIT)
    } else {
        SIGN_BIT + x.bits
    }
}

fn descending_key_of(x: Double) -> (key: u64)
    ensures
        key == descending_key(x),
{
    if x.is_nan() {
        u64::MAX
    } else {
        u64::MAX - rank_key_of(x)
    }
}

/// The keys of a sequence of numbers by which larger values come first.
pub fn keys_descending(s: &[Double]) -> (keys: Vec<u64>)
    ensures
        keys@ == descending_keys(s@),
{
    let mut keys: Vec<u64> = Vec::new();
    let mut i: usize = 0;
    while i < s.len()
        invariant
            i <= s@.len(),
            keys@.len() == i,
            forall|h: int| 0 <= h < i ==> #[trigger] keys@[h] == descending_key(s@[h]),
        decreases s@.len() - i,
    {
        keys.push(descending_key_of(s[i]));
        i += 1;
    }
    assert(keys@ =~= descending_keys(s@));
    keys
}

/// The positions of a sequence of numbers in increasing total order.
pub fn ascending_order(s: &[Double]) -> (order: Vec<usize>)
    ensures
        sorts(total_keys(s@), order@),
        order@ == order_of(total_keys(s@)),
{
    let mut keys: Vec<u64> = Vec::new();
    let mut i: usize = 0;
    while i < s.len()
        invariant
            i <= s@.len(),
            keys@.len() == i,
            forall|h: int| 0 <= h < i ==> #[trigger] keys@[h] == total_key(s@[h]),
        decreases s@.len() - i,
    {
        keys.push(total_key_of(s[i]));
        i += 1;
    }
    let order = sort_positions(&keys);
    proof {
        assert(keys@ =~= total_keys(s@));
        lemma_sort_unique(keys@, order@, order_of(keys@));
    }
    order
}

/// The stable order of a sequence of keys.
pub fn order_by(keys: &Vec<u64>) -> (order: Vec<usize>)
    ensures
        sorts(keys@, order@),
        order@ == order_of(keys@),
{
    let order = sort_positions(keys);
    proof {
        lemma_sort_unique(keys@, order@, order_of(keys@));
    }
    order
}

/// The numbers in increasing total order.
pub fn sorted_ascending(s: &[Double]) -> (sorted: Vec<Double>)
    ensures
        sorted@ == ascending(s@),
{
    let order = ascending_order(s);
    let mut sorted: Vec<Double> = Vec::new();
    let mut i: usize = 0;
    while i < order.len()
        invariant
            i <= order@.len(),
            order@.len() == s@.len(),
            order@ == order_of(total_keys(s@)),
            forall|h: int| 0 <= h < order@.len() ==> 0 <= #[trigger] order@[h] < s@.len(),
            sorted@.len() == i,
            forall|h: int| 0 <= h < i ==> #[trigger] sorted@[h] == s@[order@[h] as int],
        decreases order@.len() - i,
    {
        sorted.push(s[order[i]]);
        i += 1;
    }
    assert(sorted@ =~= ascending(s@));
    sorted
}

/// How many keys are below the one at `i`.
pub open spec fn count_below(keys: Seq<u64>, i: int) -> nat {
    Set::new(|j: int| 0 <= j < keys.len() && keys[j] < keys[i]).len()
}

/// How many keys are equal to the one at `i`, itself included.
pub open spec fn count_alike(keys: Seq<u64>, i: int) -> nat {
    Set::new(|j: int| 0 <= j < keys.len() && keys[j] == keys[i]).len()
}

/// The average of the ranks, counted from one, that the keys equal to the one at `i` span.
pub open spec fn midrank(keys: Seq<u64>, i: int) -> Double {
    fadd(
        fdiv(fcount(2 * count_below(keys, i) + count_alike(keys, i) - 1), fcount(2)),
        fone(),
    )
}

/// The positions of a sorted order at which a condition holds are as many as the
/// positions that it lists there.
proof fn lemma_listed(keys: Seq<u64>, order: Seq<usize>, low: int, high: int, chosen: Set<int>)
    requires
        sorts(keys, order),
        keys.len() <= usize::MAX,
        0 <= low <= high <= order.len(),
        forall|j: int| chosen.contains(j) ==> 0 <= j < keys.len(),
        forall|p: int| 0 <= p < order.len() ==> (chosen.contains(#[trigger] order[p] as int) <==> low
            <= p < high),
    ensures
        chosen.len() == high - low,
{
    let places = vstd::set_lib::set_int_range(low, high);
    vstd::set_lib::lemma_int_range(low, high);
    let f = |p: int| order[p] as int;
    assert forall|a: int, b: int|
        #![trigger f(a), f(b)]
        places.contains(a) && places.contains(b) && f(a) == f(b) implies a == b by {
        if a < b {
            assert(sorts_before(keys, order[a] as int, order[b] as int));
        } else if b < a {
            assert(sorts_before(keys, order[b] as int, order[a] as int));
        }
    }
    assert forall|j: int| chosen.contains(j) implies exists|p: int|
        places.contains(p) && #[trigger] f(p) == j by {
        assert(order.contains(j as usize));
        let p = choose|p: int| 0 <= p < order.len() && order[p] == j as usize;
        assert(order[p] as int == j);
        assert(places.contains(p) && f(p) == j);
    }
    assert forall|p: int| #[trigger] places.contains(p) implies chosen.contains(f(p)) by {
        assert(chosen.contains(order[p] as int));
    }
    assert(places.map(f) =~= chosen);
    vstd::set_lib::lemma_map_size(places, chosen, f);
}

/// The midranks of a sequence of keys: the smallest key has rank one, and equal keys share
/// the average of the ranks they span.
pub fn midranks_by(keys: &Vec<u64>) -> (ranks: Vec<Double>)
    ensures
        ranks@.len() == keys@.len(),
        forall|i: int| 0 <= i < keys@.len() ==> #[trigger] ranks@[i] == midrank(keys@, i),
{
    let n: usize = keys.len();
    let order = order_by(keys);
    let mut ranks: Vec<Double> = Vec::new();
    while ranks.len() < n
        invariant
            ranks@.len() <= n,
        decreases n - ranks@.len(),
    {
        ranks.push(Double::zero());
    }
    let mut i: usize = 0;
    while i < n
        invariant
            n == keys@.len(),
            sorts(keys@, order@),
            order@.len() == n,
            ranks@.len() == n,
            i <= n,
            0 < i < n ==> keys@[order@[i - 1] as int] < keys@[order@[i as int] as int],
            forall|p: int|
                0 <= p < i ==> ranks@[#[trigger] order@[p] as int] == midrank(
                    keys@,
                    order@[p] as int,
                ),
        decreases n - i,
    {
        let key: u64 = keys[order[i]];
        let mut j: usize = i + 1;
        while j < n && keys[order[j]] == key
            invariant
                n == keys@.len(),
                sorts(keys@, order@),
                order@.len() == n,
                i < j <= n,
                key == keys@[order@[i as int] as int],
                forall|p: int| i <= p < j ==> keys@[#[trigger] order@[p] as int] == key,
            decreases n - j,
        {
            j += 1;
        }
        // The run of equal keys is [i, j).
        let mid = Double::of_sum(i, j - 1) / Double::of_count(2) + Double::one();
        proof {
            assert forall|p: int| i <= p < j implies mid == midrank(
                keys@,
                #[trigger] order@[p] as int,
            ) by {
                lemma_run(keys@, order@, i as int, j as int, p);
            }
        }
        let mut k: usize = i;
        let ghost before = ranks@;
        while k < j
            invariant
                n == keys@.len(),
                sorts(keys@, order@),
                order@.len() == n,
                ranks@.len() == n,
                i <= k <= j <= n,
                forall|p: int|
                    0 <= p < i ==> ranks@[#[trigger] order@[p] as int] == midrank(
                        keys@,
                        order@[p] as int,
                    ),
                forall|p: int| i <= p < k ==> ranks@[#[trigger] order@[p] as int] == mid,
            decreases j - k,
        {
            proof {
                assert forall|p: int| 0 <= p < k implies order@[p] != order@[k as int] by {
                    assert(sorts_before(keys@, order@[p] as int, order@[k as int] as int));
                }
            }
            ranks.set(order[k], mid);
            k += 1;
        }
        proof {
            if j < n {
                assert(sorts_before(keys@, order@[j - 1] as int, order@[j as int] as int));
            }
        }
        i = j;
    }
    proof {
        assert forall|x: int| 0 <= x < n implies #[trigger] ranks@[x] == midrank(keys@, x) by {
            assert(order@.contains(x as usize));
            let p = choose|p: int| 0 <= p < n && order@[p] == x as usize;
            assert(ranks@[order@[p] as int] == midrank(keys@, order@[p] as int));
        }
    }
    ranks
}

/// A maximal run of equal keys in sorted order spans the ranks of each of its members.
proof fn lemma_run(keys: Seq<u64>, order: Seq<usize>, i: int, j: int, p: int)
    requires
        sorts(keys, order),
        keys.len() <= usize::MAX,
        0 <= i <= p < j <= order.len(),
        0 < i ==> keys[order[i - 1] as int] < keys[order[i] as int],
        j < order.len() ==> keys[order[j] as int] != keys[order[i] as int],
        forall|q: int| i <= q < j ==> keys[#[trigger] order[q] as int] == keys[order[i] as int],
    ensures
        count_below(keys, order[p] as int) == i,
        count_alike(keys, order[p] as int) == j - i,
{
    let key = keys[order[i] as int];
    let x = order[p] as int;
    assert(keys[x] == key);
    assert forall|q: int| 0 <= q < order.len() implies (keys[#[trigger] order[q] as int] < key
        <==> q < i) && (keys[order[q] as int] == key <==> i <= q < j) by {
        if q < i {
            if q < i - 1 {
                assert(sorts_before(keys, order[q] as int, order[i - 1] as int));
            }
        } else if q >= j {
            assert(sorts_before(keys, order[i] as int, order[j] as int));
            if q > j {
                assert(sorts_before(keys, order[j] as int, order[q] as int));
            }
        }
    }
    lemma_listed(
        keys,
        order,
        0,
        i,
        Set::new(|h: int| 0 <= h < keys.len() && keys[h] < keys[x]),
    );
    lemma_listed(
        keys,
        order,
        i,
        j,
        Set::new(|h: int| 0 <= h < keys.len() && keys[h] == keys[x]),
    );
}

/// How many numbers are less than `x`.
pub open spec fn less_than(s: Seq<Double>, x: Double) -> nat {
    Set::new(|j: int| 0 <= j < s.len() && flt(s[j], x)).len()
}

/// How many numbers are equal to `x`.
pub open spec fn equal_to(s: Seq<Double>, x: Double) -> nat {
    Set::new(|j: int| 0 <= j < s.len() && feq(s[j], x)).len()
}

/// The midrank of the number at `i`: the average of the ranks, counted from one for the
/// smallest, that the numbers equal to it span.
pub open spec fn value_midrank(s: Seq<Double>, i: int) -> Double {
    fadd(
        fdiv(fcount(2 * less_than(s, s[i]) + equal_to(s, s[i]) - 1), fcount(2)),
        fone(),
    )
}

/// Midranks of a sample: rank one is the smallest, ties sharing the average of the ranks
/// they span.
pub fn midranks(xs: &[Double]) -> (ranks: Vec<Double>)
    requires
        forall|i: int| 0 <= i < xs@.len() ==> !(#[trigger] xs@[i]).nan(),
    ensures
        ranks@ == Seq::new(xs@.len(), |i: int| value_midrank(xs@, i)),
{
    let mut keys: Vec<u64> = Vec::new();
    let mut i: usize = 0;
    while i < xs.len()
        invariant
            i <= xs@.len(),
            keys@.len() == i,
            forall|h: int| 0 <= h < i ==> #[trigger] keys@[h] == rank_key(xs@[h]),
        decreases xs@.len() - i,
    {
        keys.push(rank_key_of(xs[i]));
        i += 1;
    }
    let ranks = midranks_by(&keys);
    proof {
        assert forall|x: int| 0 <= x < xs@.len() implies #[trigger] ranks@[x] == value_midrank(
            xs@,
            x,
        ) by {
            let k = keys@;
            assert forall|j: int| 0 <= j < xs@.len() implies (#[trigger] k[j] < k[x]) == flt(
                xs@[j],
                xs@[x],
            ) && (k[j] == k[x]) == feq(xs@[j], xs@[x]) by {
                lemma_rank_key(xs@[j], xs@[x]);
            }
            assert(Set::new(|j: int| 0 <= j < k.len() && k[j] < k[x]) =~= Set::new(
                |j: int| 0 <= j < xs@.len() && flt(xs@[j], xs@[x]),
            ));
            assert(Set::new(|j: int| 0 <= j < k.len() && k[j] == k[x]) =~= Set::new(
                |j: int| 0 <= j < xs@.len() && feq(xs@[j], xs@[x]),
            ));
        }
        assert(ranks@ =~= Seq::new(xs@.len(), |i: int| value_midrank(xs@, i)));
    }
    ranks
}

} // verus!
