//! Stable ordering of indices by a two-part key, and the median built on it.

use vstd::prelude::*;

verus! {

/// Lexicographic `<` on key pairs.
pub open spec fn pair_less(a: (i64, i64), b: (i64, i64)) -> bool {
    a.0 < b.0 || (a.0 == b.0 && a.1 < b.1)
}

/// Index `i` precedes index `j` in the stable order: its key is smaller, or
/// the keys are equal and `i` stands first.
pub open spec fn comes_before(keys: Seq<(i64, i64)>, i: int, j: int) -> bool {
    pair_less(keys[i], keys[j]) || (keys[i] == keys[j] && i < j)
}

/// `order[a]` precedes `order[b]`.
pub open spec fn in_order(order: Seq<usize>, keys: Seq<(i64, i64)>, a: int, b: int) -> bool {
    comes_before(keys, order[a] as int, order[b] as int)
}

/// Index `v` has a place in `order`.
pub open spec fn placed(order: Seq<usize>, v: int) -> bool {
    exists|k: int| 0 <= k < order.len() && order[k] == v
}

/// `order` lists every index of `keys` once, by ascending key, equal keys by
/// ascending index.
pub open spec fn is_stable_order(order: Seq<usize>, keys: Seq<(i64, i64)>) -> bool {
    &&& order.len() == keys.len()
    &&& forall|k: int| 0 <= k < order.len() ==> #[trigger] order[k] < keys.len()
    &&& forall|a: int, b: int| 0 <= a < b < order.len() ==> #[trigger] in_order(order, keys, a, b)
    &&& forall|v: int| 0 <= v < keys.len() ==> #[trigger] placed(order, v)
}

/// The stable order of `keys`.
pub open spec fn sorted_order(keys: Seq<(i64, i64)>) -> Seq<usize> {
    choose|order: Seq<usize>| is_stable_order(order, keys)
}

/// Two stable orders of the same keys agree up to and including place `a`.
proof fn lemma_stable_order_agree(
    o1: Seq<usize>,
    o2: Seq<usize>,
    keys: Seq<(i64, i64)>,
    a: int,
)
    requires
        is_stable_order(o1, keys),
        is_stable_order(o2, keys),
        0 <= a < keys.len(),
    ensures
        forall|b: int| 0 <= b <= a ==> o1[b] == o2[b],
    decreases a,
{
    if a > 0 {
        lemma_stable_order_agree(o1, o2, keys, a - 1);
    }
    if o1[a] != o2[a] {
        assert(o1[a] < keys.len());
        assert(o2[a] < keys.len());
        assert(placed(o2, o1[a] as int));
        let k = choose|k: int| 0 <= k < o2.len() && o2[k] == o1[a];
        assert(placed(o1, o2[a] as int));
        let m = choose|m: int| 0 <= m < o1.len() && o1[m] == o2[a];
        if k < a {
            assert(in_order(o1, keys, k, a));
        }
        if m < a {
            assert(in_order(o2, keys, m, a));
        }
        assert(in_order(o2, keys, a, k));
        assert(in_order(o1, keys, a, m));
    }
}

/// There is one stable order.
pub proof fn lemma_stable_order_unique(o1: Seq<usize>, o2: Seq<usize>, keys: Seq<(i64, i64)>)
    requires
        is_stable_order(o1, keys),
        is_stable_order(o2, keys),
    ensures
        o1 == o2,
{
    if keys.len() > 0 {
        lemma_stable_order_agree(o1, o2, keys, keys.len() - 1);
    }
    assert(o1 =~= o2);
}

/// A stable order of `keys` is the stable order of `keys`.
pub proof fn lemma_sorted_order_is(order: Seq<usize>, keys: Seq<(i64, i64)>)
    requires
        is_stable_order(order, keys),
    ensures
        sorted_order(keys) == order,
{
    lemma_stable_order_unique(order, sorted_order(keys), keys);
}

/// Two keys of which the second is not the smaller stand in their order.
pub proof fn lemma_sorted_order_of_two(keys: Seq<(i64, i64)>)
    requires
        keys.len() == 2,
        !pair_less(keys[1], keys[0]),
    ensures
        sorted_order(keys) == seq![0usize, 1usize],
{
    let order = seq![0usize, 1usize];
    assert(placed(order, 0)) by {
        assert(order[0] == 0);
    }
    assert(placed(order, 1)) by {
        assert(order[1] == 1);
    }
    assert forall|a: int, b: int| 0 <= a < b < order.len() implies #[trigger] in_order(
        order,
        keys,
        a,
        b,
    ) by {
        assert(a == 0 && b == 1);
    }
    lemma_sorted_order_is(order, keys);
}

/// Twice the median of two values is their sum.
pub proof fn lemma_median_of_two(values: Seq<i64>)
    requires
        values.len() == 2,
    ensures
        median_twice(values) == values[0] + values[1],
{
    let keys = value_keys(values);
    if pair_less(keys[1], keys[0]) {
        let order = seq![1usize, 0usize];
        assert(placed(order, 0)) by {
            assert(order[1] == 0);
        }
        assert(placed(order, 1)) by {
            assert(order[0] == 1);
        }
        assert forall|a: int, b: int| 0 <= a < b < order.len() implies #[trigger] in_order(
            order,
            keys,
            a,
            b,
        ) by {
            assert(a == 0 && b == 1);
        }
        lemma_sorted_order_is(order, keys);
    } else {
        lemma_sorted_order_of_two(keys);
    }
}

/// Executable `pair_less`.
pub fn key_less(a: (i64, i64), b: (i64, i64)) -> (less: bool)
    ensures
        less == pair_less(a, b),
{
    a.0 < b.0 || (a.0 == b.0 && a.1 < b.1)
}

/// Sorts the indices of `keys` by ascending key; indices with equal keys
/// keep their order.
pub fn stable_order(keys: &Vec<(i64, i64)>) -> (order: Vec<usize>)
    ensures
        is_stable_order(order@, keys@),
        order@ == sorted_order(keys@),
{
    let n: usize = keys.len();
    let mut order: Vec<usize> = Vec::new();
    let mut i: usize = 0;
    while i < n
        invariant
            n == keys@.len(),
            i <= n,
            is_stable_order(order@, keys@.subrange(0, i as int)),
        decreases n - i,
    {
        let ghost before = order@;
        let ghost head = keys@.subrange(0, i as int);
        let ghost grown = keys@.subrange(0, i as int + 1);
        order.push(i);
        let mut j: usize = i;
        proof {
            assert(order@[j as int] == i);
            assert forall|k: int| 0 <= k < order@.len() && k != j implies #[trigger] order@[k] < i by {
                assert(before[k] < head.len());
            }
            assert forall|v: int| 0 <= v <= i implies #[trigger] placed(order@, v) by {
                if v < i {
                    assert(placed(before, v));
                    let k = choose|k: int| 0 <= k < before.len() && before[k] == v;
                    assert(order@[k] == v);
                } else {
                    assert(order@[i as int] == v);
                }
            }
            assert forall|a: int, b: int| 0 <= a < b < order@.len() && a != j && b != j implies
                #[trigger] in_order(order@, grown, a, b) by {
                assert(in_order(before, head, a, b));
            }
        }
        while j > 0 && key_less(keys[i], keys[order[j - 1]])
            invariant
                n == keys@.len(),
                i < n,
                j <= i,
                grown == keys@.subrange(0, i as int + 1),
                order@.len() == i + 1,
                order@[j as int] == i,
                forall|k: int| 0 <= k < order@.len() && k != j ==> #[trigger] order@[k] < i,
                forall|v: int| 0 <= v <= i ==> #[trigger] placed(order@, v),
                forall|a: int, b: int|
                    0 <= a < b < order@.len() && a != j && b != j ==> #[trigger] in_order(
                        order@,
                        grown,
                        a,
                        b,
                    ),
                forall|b: int|
                    j < b < order@.len() ==> pair_less(keys@[i as int], #[trigger] keys@[order@[b] as int]),
            decreases j,
        {
            let ghost prev = order@;
            let left: usize = order[j - 1];
            order.set(j, left);
            order.set(j - 1, i);
            proof {
                assert forall|v: int| 0 <= v <= i implies #[trigger] placed(order@, v) by {
                    assert(placed(prev, v));
                    let k = choose|k: int| 0 <= k < prev.len() && prev[k] == v;
                    if k == j {
                        assert(order@[j - 1] == v);
                    } else if k == j - 1 {
                        assert(order@[j as int] == v);
                    } else {
                        assert(order@[k] == v);
                    }
                }
                assert forall|a: int, b: int|
                    0 <= a < b < order@.len() && a != j - 1 && b != j - 1 implies #[trigger] in_order(
                    order@,
                    grown,
                    a,
                    b,
                ) by {
                    if a == j {
                        assert(in_order(prev, grown, j - 1, b));
                    } else if b == j {
                        assert(in_order(prev, grown, a, j - 1));
                    } else {
                        assert(in_order(prev, grown, a, b));
                    }
                }
                assert forall|b: int| j - 1 < b < order@.len() implies pair_less(
                    keys@[i as int],
                    #[trigger] keys@[order@[b] as int],
                ) by {
                    if b > j {
                        assert(pair_less(keys@[i as int], keys@[prev[b] as int]));
                    }
                }
            }
            j = j - 1;
        }
        proof {
            assert forall|a: int, b: int| 0 <= a < b < order@.len() implies #[trigger] in_order(
                order@,
                grown,
                a,
                b,
            ) by {
                assert(grown[i as int] == keys@[i as int]);
                if a == j {
                    assert(order@[b] < i);
                    assert(grown[order@[b] as int] == keys@[order@[b] as int]);
                    assert(pair_less(keys@[i as int], keys@[order@[b] as int]));
                } else if b == j {
                    assert(order@[a] < i);
                    assert(order@[j - 1] < i);
                    assert(grown[order@[j - 1] as int] == keys@[order@[j - 1] as int]);
                    assert(!pair_less(keys@[i as int], keys@[order@[j - 1] as int]));
                    if a < j - 1 {
                        assert(in_order(order@, grown, a, j - 1));
                    }
                }
            }
            assert forall|k: int| 0 <= k < order@.len() implies #[trigger] order@[k] < grown.len() by {
                if k != j {
                    assert(order@[k] < i);
                }
            }
        }
        i = i + 1;
    }
    proof {
        assert(keys@.subrange(0, n as int) =~= keys@);
        let chosen = sorted_order(keys@);
        lemma_stable_order_unique(order@, chosen, keys@);
    }
    order
}

/// The keys under which plain values are ordered.
pub open spec fn value_keys(values: Seq<i64>) -> Seq<(i64, i64)> {
    values.map_values(|v: i64| (v, 0i64))
}

/// Twice the median of `values`: twice the middle value of an odd number of
/// values, the sum of the two middle values of an even number, and zero of
/// none. Doubling keeps the median of an even number of values exact.
pub open spec fn median_twice(values: Seq<i64>) -> int {
    let n = values.len() as int;
    let order = sorted_order(value_keys(values));
    if n == 0 {
        0
    } else if n % 2 == 0 {
        values[order[n / 2 - 1] as int] + values[order[n / 2] as int]
    } else {
        2 * values[order[n / 2] as int]
    }
}

/// Computes `median_twice`.
pub fn median(values: &Vec<i64>) -> (twice: i128)
    ensures
        twice == median_twice(values@),
        values@.len() == 0 ==> twice == 0,
        values@.len() > 0 ==> exists|a: int, b: int|
            0 <= a < values@.len() && 0 <= b < values@.len() && twice == values@[a] + values@[b],
{
    let n: usize = values.len();
    if n == 0 {
        return 0;
    }
    let mut keys: Vec<(i64, i64)> = Vec::new();
    let mut i: usize = 0;
    while i < n
        invariant
            n == values@.len(),
            i <= n,
            keys@.len() == i,
            forall|k: int| 0 <= k < i ==> keys@[k] == (values@[k], 0i64),
        decreases n - i,
    {
        keys.push((values[i], 0));
        i = i + 1;
    }
    assert(keys@ =~= value_keys(values@));
    let order: Vec<usize> = stable_order(&keys);
    let mid: usize = n / 2;
    assert(order@[mid as int] < keys@.len());
    if n % 2 == 0 {
        assert(order@[mid - 1] < keys@.len());
        let twice: i128 = (values[order[mid - 1]] as i128) + (values[order[mid]] as i128);
        assert(twice == values@[order@[mid - 1] as int] + values@[order@[mid as int] as int]);
        twice
    } else {
        let twice: i128 = 2 * (values[order[mid]] as i128);
        assert(twice == values@[order@[mid as int] as int] + values@[order@[mid as int] as int]);
        twice
    }
}

} // verus!
