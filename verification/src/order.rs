//! Putting things in order by a key, keeping the order of equals.

use vstd::prelude::*;

verus! {

/// Where a key goes among the first `j` places of an order: behind every place
/// whose key is not larger.
pub open spec fn slot(keys: Seq<i128>, order: Seq<usize>, key: i128, j: int) -> int
    decreases j,
{
    if 0 < j <= order.len() && keys[order[j - 1] as int] > key {
        slot(keys, order, key, j - 1)
    } else {
        j
    }
}

/// The positions of the first `n` keys, by increasing key, equal keys in the
/// order in which they stand.
pub open spec fn order_upto(keys: Seq<i128>, n: int) -> Seq<usize>
    decreases n,
{
    if n <= 0 {
        Seq::empty()
    } else {
        let before = order_upto(keys, n - 1);
        before.insert(slot(keys, before, keys[n - 1], before.len() as int), (n - 1) as usize)
    }
}

pub open spec fn order_of(keys: Seq<i128>) -> Seq<usize> {
    order_upto(keys, keys.len() as int)
}

/// The order puts position `a` before position `b`.
pub open spec fn comes_before(keys: Seq<i128>, a: usize, b: usize) -> bool {
    keys[a as int] < keys[b as int] || (keys[a as int] == keys[b as int] && a < b)
}

/// The sequence names `n` different positions, each before the ones that follow.
pub open spec fn in_order(keys: Seq<i128>, order: Seq<usize>, n: int) -> bool {
    &&& order.len() == n
    &&& forall|i: int| 0 <= i < order.len() ==> (#[trigger] order[i]) < n
    &&& forall|i: int, j: int|
        0 <= i < j < order.len() ==> #[trigger] comes_before(keys, order[i], order[j])
}

proof fn lemma_slot(keys: Seq<i128>, order: Seq<usize>, key: i128, j: int)
    requires
        0 <= j <= order.len(),
    ensures
        0 <= slot(keys, order, key, j) <= j,
        slot(keys, order, key, j) > 0 ==> keys[order[slot(keys, order, key, j) - 1] as int]
            <= key,
        forall|i: int|
            slot(keys, order, key, j) <= i < j ==> keys[(#[trigger] order[i]) as int] > key,
    decreases j,
{
    if j > 0 && keys[order[j - 1] as int] > key {
        lemma_slot(keys, order, key, j - 1);
    }
}

proof fn lemma_order(keys: Seq<i128>, n: int)
    requires
        0 <= n <= keys.len(),
        keys.len() <= usize::MAX,
    ensures
        in_order(keys, order_upto(keys, n), n),
    decreases n,
{
    if n > 0 {
        lemma_order(keys, n - 1);
        let before = order_upto(keys, n - 1);
        let p = slot(keys, before, keys[n - 1], before.len() as int);
        lemma_slot(keys, before, keys[n - 1], before.len() as int);
        let after = before.insert(p, (n - 1) as usize);
        assert forall|i: int, j: int| 0 <= i < j < after.len() implies #[trigger] comes_before(
            keys,
            after[i],
            after[j],
        ) by {
            if i < p && j < p {
                assert(comes_before(keys, before[i], before[j]));
            } else if i < p && j == p {
                if i < p - 1 {
                    assert(comes_before(keys, before[i], before[p - 1]));
                }
            } else if i < p {
                assert(comes_before(keys, before[i], before[j - 1]));
            } else if i == p {
                assert(keys[before[j - 1] as int] > keys[n - 1]);
            } else {
                assert(comes_before(keys, before[i - 1], before[j - 1]));
            }
        }
        assert forall|i: int| 0 <= i < after.len() implies (#[trigger] after[i]) < n by {
            if i < p {
                assert(after[i] == before[i]);
            } else if i > p {
                assert(after[i] == before[i - 1]);
            }
        }
    }
}

/// The order of a sequence of keys names each position once, smaller keys first
/// and equal keys in the order in which they stand.
pub proof fn an_order_ranks_every_position_once(keys: Seq<i128>)
    requires
        keys.len() <= usize::MAX,
    ensures
        in_order(keys, order_of(keys), keys.len() as int),
        order_of(keys).no_duplicates(),
{
    lemma_order(keys, keys.len() as int);
    let order = order_of(keys);
    assert forall|i: int, j: int| 0 <= i < order.len() && 0 <= j < order.len() && i != j implies
        order[i] != order[j] by {
        if i < j {
            assert(comes_before(keys, order[i], order[j]));
        } else {
            assert(comes_before(keys, order[j], order[i]));
        }
    }
}

/// The positions of the keys, by increasing key, equal keys in the order in
/// which they stand.
pub fn stable_order(keys: &Vec<i128>) -> (order: Vec<usize>)
    ensures
        order@ == order_of(keys@),
        order@.len() == keys@.len(),
        forall|i: int| 0 <= i < order@.len() ==> (#[trigger] order@[i]) < keys@.len(),
{
    let mut order: Vec<usize> = Vec::new();
    let mut n: usize = 0;
    assert(order@ =~= order_upto(keys@, 0));
    while n < keys.len()
        invariant
            n <= keys.len(),
            order@ == order_upto(keys@, n as int),
            in_order(keys@, order@, n as int),
        decreases keys.len() - n,
    {
        let key: i128 = keys[n];
        let mut p: usize = order.len();
        while p > 0 && keys[order[p - 1]] > key
            invariant
                p <= order.len(),
                n < keys.len(),
                key == keys@[n as int],
                in_order(keys@, order@, n as int),
                slot(keys@, order@, key, p as int) == slot(
                    keys@,
                    order@,
                    key,
                    order@.len() as int,
                ),
            decreases p,
        {
            p = p - 1;
        }
        order.insert(p, n);
        n = n + 1;
        proof {
            lemma_order(keys@, n as int);
        }
    }
    order
}

} // verus!
