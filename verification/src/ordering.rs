//! Sorting of numbered things by pairs of whole numbers.

use crate::numbers::{order_key, order_of};
use vstd::prelude::*;

verus! {

/// The numbers below `n`.
pub open spec fn indices(n: nat) -> Seq<usize> {
    Seq::new(n, |i: int| i as usize)
}

/// How many answers are yes.
pub open spec fn yes_count(answers: Seq<bool>) -> nat
    decreases answers.len(),
{
    if answers.len() == 0 {
        0
    } else {
        yes_count(answers.drop_last()) + if answers.last() {
            1nat
        } else {
            0nat
        }
    }
}

/// Whether a pair of keys comes before another.
pub open spec fn comes_before(a: (i64, i64), b: (i64, i64)) -> bool {
    a.0 < b.0 || (a.0 == b.0 && a.1 < b.1)
}

/// A row of numbers in the order of their keys with one more, behind those with the same keys.
pub open spec fn with_index(order: Seq<usize>, keys: Seq<(i64, i64)>, k: usize) -> Seq<usize>
    decreases order.len(),
{
    if order.len() == 0 || !comes_before(keys[k as int], keys[order.last() as int]) {
        order.push(k)
    } else {
        with_index(order.drop_last(), keys, k).push(order.last())
    }
}

/// The given numbers in the order of their keys; those with the same keys stay in order.
pub open spec fn sorted_by_keys(list: Seq<usize>, keys: Seq<(i64, i64)>) -> Seq<usize>
    decreases list.len(),
{
    if list.len() == 0 {
        list
    } else {
        with_index(sorted_by_keys(list.drop_last(), keys), keys, list.last())
    }
}

/// Whether each number has keys.
pub open spec fn have_keys(list: Seq<usize>, keys: Seq<(i64, i64)>) -> bool {
    forall|i: int| 0 <= i < list.len() ==> (#[trigger] list[i]) < keys.len()
}

proof fn lemma_with_index_split(
    head: Seq<usize>,
    tail: Seq<usize>,
    keys: Seq<(i64, i64)>,
    k: usize,
)
    requires
        forall|i: int|
            0 <= i < tail.len() ==> comes_before(keys[k as int], keys[#[trigger] tail[i] as int]),
    ensures
        with_index(head + tail, keys, k) == with_index(head, keys, k) + tail,
    decreases tail.len(),
{
    if tail.len() == 0 {
        assert(head + tail =~= head);
        assert(with_index(head, keys, k) + tail =~= with_index(head, keys, k));
    } else {
        let all = head + tail;
        assert(all.last() == tail[tail.len() - 1]);
        assert(all.drop_last() =~= head + tail.drop_last());
        lemma_with_index_split(head, tail.drop_last(), keys, k);
        assert(with_index(all, keys, k) =~= with_index(head, keys, k) + tail);
    }
}

/// Whether the keys of a row of numbers never go down.
pub open spec fn is_in_order(order: Seq<usize>, keys: Seq<(i64, i64)>) -> bool {
    forall|i: int, j: int|
        0 <= i <= j < order.len() ==> !comes_before(
            keys[#[trigger] order[j] as int],
            keys[#[trigger] order[i] as int],
        )
}

proof fn lemma_with_index(order: Seq<usize>, keys: Seq<(i64, i64)>, k: usize)
    requires
        is_in_order(order, keys),
    ensures
        is_in_order(with_index(order, keys, k), keys),
        with_index(order, keys, k).to_multiset() == order.to_multiset().insert(k),
        with_index(order, keys, k).len() == order.len() + 1,
        with_index(order, keys, k).last() == if order.len() == 0 || !comes_before(
            keys[k as int],
            keys[order.last() as int],
        ) {
            k
        } else {
            order.last()
        },
    decreases order.len(),
{
    broadcast use vstd::seq_lib::group_to_multiset_ensures;

    let now = with_index(order, keys, k);
    if order.len() == 0 {
    } else if !comes_before(keys[k as int], keys[order.last() as int]) {
        assert forall|i: int, j: int| 0 <= i <= j < now.len() implies !comes_before(
            keys[#[trigger] now[j] as int],
            keys[#[trigger] now[i] as int],
        ) by {
            if j == now.len() - 1 && i < order.len() {
                assert(!comes_before(
                    keys[order[order.len() - 1] as int],
                    keys[order[i] as int],
                ));
            }
        }
    } else {
        let head = order.drop_last();
        assert forall|i: int, j: int| 0 <= i <= j < head.len() implies !comes_before(
            keys[#[trigger] head[j] as int],
            keys[#[trigger] head[i] as int],
        ) by {
            assert(head[j] == order[j] && head[i] == order[i]);
        }
        lemma_with_index(head, keys, k);
        assert(head.push(order.last()) =~= order);
        let part = with_index(head, keys, k);
        assert forall|i: int, j: int| 0 <= i <= j < now.len() implies !comes_before(
            keys[#[trigger] now[j] as int],
            keys[#[trigger] now[i] as int],
        ) by {
            if j < part.len() {
                assert(now[j] == part[j] && now[i] == part[i]);
            } else if i < part.len() {
                assert(now[i] == part[i]);
                assert(!comes_before(keys[part[part.len() - 1] as int], keys[part[i] as int]));
                if head.len() > 0 {
                    assert(!comes_before(
                        keys[order[order.len() - 1] as int],
                        keys[order[head.len() - 1] as int],
                    ));
                }
            }
        }
        assert(now.to_multiset() =~= order.to_multiset().insert(k));
    }
}

/// Sorting brings the keys into order, and neither adds nor loses a number.
pub proof fn lemma_sorted_by_keys(list: Seq<usize>, keys: Seq<(i64, i64)>)
    ensures
        is_in_order(sorted_by_keys(list, keys), keys),
        sorted_by_keys(list, keys).to_multiset() == list.to_multiset(),
        sorted_by_keys(list, keys).len() == list.len(),
    decreases list.len(),
{
    broadcast use vstd::seq_lib::group_to_multiset_ensures;

    if list.len() > 0 {
        lemma_sorted_by_keys(list.drop_last(), keys);
        lemma_with_index(sorted_by_keys(list.drop_last(), keys), keys, list.last());
        assert(list.drop_last().push(list.last()) =~= list);
    }
}

proof fn lemma_sorted_have_keys(list: Seq<usize>, keys: Seq<(i64, i64)>)
    requires
        have_keys(list, keys),
    ensures
        have_keys(sorted_by_keys(list, keys), keys),
{
    broadcast use vstd::seq_lib::group_to_multiset_ensures;

    lemma_sorted_by_keys(list, keys);
    let sorted = sorted_by_keys(list, keys);
    assert forall|i: int| 0 <= i < sorted.len() implies (#[trigger] sorted[i]) < keys.len() by {
        assert(sorted.contains(sorted[i]));
        assert(sorted.to_multiset().count(sorted[i]) > 0);
        assert(list.to_multiset().count(sorted[i]) > 0);
        assert(list.contains(sorted[i]));
        let j = list.index_of(sorted[i]);
        assert(list[j] < keys.len());
    }
}

/// Sorts numbers by their keys.
pub fn sort_by_keys(list: &Vec<usize>, keys: &Vec<(i64, i64)>) -> (r: Vec<usize>)
    requires
        have_keys(list@, keys@),
    ensures
        r@ == sorted_by_keys(list@, keys@),
        have_keys(r@, keys@),
{
    let mut out: Vec<usize> = Vec::new();
    let mut i: usize = 0;
    assert(out@ =~= sorted_by_keys(list@.take(0), keys@));
    while i < list.len()
        invariant
            i <= list@.len(),
            have_keys(list@, keys@),
            have_keys(out@, keys@),
            out@ == sorted_by_keys(list@.take(i as int), keys@),
        decreases list@.len() - i,
    {
        let k: usize = list[i];
        assert(list@[i as int] < keys@.len());
        let key: (i64, i64) = keys[k];
        let mut p: usize = out.len();
        while p > 0
            invariant_except_break
                forall|j: int|
                    p <= j < out@.len() ==> comes_before(key, keys@[#[trigger] out@[j] as int]),
            invariant
                p <= out@.len(),
                have_keys(out@, keys@),
                k < keys@.len(),
                key == keys@[k as int],
            ensures
                forall|j: int|
                    p <= j < out@.len() ==> comes_before(key, keys@[#[trigger] out@[j] as int]),
                p > 0 ==> !comes_before(key, keys@[out@[p - 1] as int]),
            decreases p,
        {
            assert(out@[p - 1] < keys@.len());
            let other: (i64, i64) = keys[out[p - 1]];
            if !(key.0 < other.0 || (key.0 == other.0 && key.1 < other.1)) {
                break;
            }
            p = p - 1;
        }
        proof {
            let before = out@;
            let head = before.take(p as int);
            let tail = before.skip(p as int);
            assert(before =~= head + tail);
            assert forall|j: int| 0 <= j < tail.len() implies comes_before(
                keys@[k as int],
                keys@[#[trigger] tail[j] as int],
            ) by {
                assert(tail[j] == before[p + j]);
            }
            lemma_with_index_split(head, tail, keys@, k);
            if p > 0 {
                assert(head.last() == before[p - 1]);
            }
            assert(with_index(head, keys@, k) == head.push(k));
            assert(before.insert(p as int, k) =~= head.push(k) + tail);
            assert(list@.take(i + 1).drop_last() =~= list@.take(i as int));
        }
        out.insert(p, k);
        i = i + 1;
        proof {
            assert(have_keys(list@.take(i as int), keys@)) by {
                assert forall|j: int| 0 <= j < i implies (#[trigger] list@.take(i as int)[j])
                    < keys@.len() by {
                    assert(list@[j] < keys@.len());
                }
            }
            lemma_sorted_have_keys(list@.take(i as int), keys@);
        }
    }
    assert(list@.take(i as int) =~= list@);
    out
}

/// The numbers below `n`.
pub fn count_up(n: usize) -> (r: Vec<usize>)
    ensures
        r@ == indices(n as nat),
{
    let mut out: Vec<usize> = Vec::new();
    let mut i: usize = 0;
    while i < n
        invariant
            i <= n,
            out@ == indices(i as nat),
        decreases n - i,
    {
        out.push(i);
        i = i + 1;
        assert(out@ =~= indices(i as nat));
    }
    out
}

/// The keys by which real numbers, given by their bits, are sorted.
pub open spec fn value_keys(values: Seq<u32>) -> Seq<(i64, i64)> {
    values.map_values(|v: u32| (order_of(v) as i64, 0i64))
}

/// The median of real numbers: of an even number of them, the greater of the two in the middle.
pub open spec fn median(values: Seq<u32>) -> u32 {
    values[sorted_by_keys(indices(values.len()), value_keys(values))[values.len() as int / 2] as int]
}

/// The keys by which real numbers, given by their bits, are sorted.
pub fn get_value_keys(values: &Vec<u32>) -> (r: Vec<(i64, i64)>)
    ensures
        r@ == value_keys(values@),
{
    let mut keys: Vec<(i64, i64)> = Vec::new();
    let mut i: usize = 0;
    while i < values.len()
        invariant
            i <= values@.len(),
            keys@ == value_keys(values@).take(i as int),
        decreases values@.len() - i,
    {
        keys.push((order_key(values[i]), 0));
        i = i + 1;
        assert(keys@ =~= value_keys(values@).take(i as int));
    }
    assert(keys@ =~= value_keys(values@));
    keys
}

/// The median of real numbers, given by their bits.
pub fn find_median(values: &Vec<u32>) -> (r: u32)
    requires
        values@.len() > 0,
    ensures
        r == median(values@),
{
    let n: usize = values.len();
    let keys = get_value_keys(values);
    let order = sort_by_keys(&count_up(n), &keys);
    proof {
        lemma_sorted_by_keys(indices(n as nat), keys@);
    }
    let middle: usize = order[n / 2];
    values[middle]
}

} // verus!
