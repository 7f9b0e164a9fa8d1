//! How the pieces of a page are read: laws on the order of pieces, on columns and on merged pieces.

use crate::layout::{
    cover_count, direction_keys, greatest_of, gutter_at, gutter_score, gutters, height_keys,
    histogram, is_block, is_chaotic, is_core, is_empty_bin, is_gutter, is_newspaper, is_where,
    joined_cores, joined_lists, jump_count, largest, least_of, line_order, linked_text,
    newspaper_order, noise_limit, outside, page_keys, reading_keys, stragglers, Jump, Link, Spot,
    ValleyFacts,
};
use crate::numbers::order_of;
use crate::ordering::{comes_before, indices, lemma_sorted_by_keys, sorted_by_keys, yes_count};
use vstd::prelude::*;

verus! {

// ---------------------------------------------------------------------------------------------
// Order
// ---------------------------------------------------------------------------------------------

/// The numbers that stand for real numbers are ordered as these: of numbers that are not negative the
/// one with the greater bits is greater, of negative ones the one with the lesser bits, and both zeros
/// are the same.
pub proof fn lemma_real_numbers_are_ordered(a: u32, b: u32)
    ensures
        a < b < 0x8000_0000 ==> order_of(a) < order_of(b),
        0x8000_0000 <= a < b ==> order_of(a) > order_of(b),
        0 < a < 0x8000_0000 && b >= 0x8000_0000 ==> order_of(b) < order_of(a),
        order_of(0) == order_of(0x8000_0000),
{
}

/// Sorting keeps the order of what has the same keys.
pub proof fn lemma_sorting_is_stable(list: Seq<usize>, keys: Seq<(i64, i64)>)
    requires
        forall|i: int, j: int|
            0 <= i < list.len() && 0 <= j < list.len() ==> keys[#[trigger] list[i] as int]
                == keys[#[trigger] list[j] as int],
    ensures
        sorted_by_keys(list, keys) == list,
    decreases list.len(),
{
    if list.len() > 0 {
        let short = list.drop_last();
        assert forall|i: int, j: int|
            0 <= i < short.len() && 0 <= j < short.len() implies keys[#[trigger] short[i] as int]
            == keys[#[trigger] short[j] as int] by {
            assert(short[i] == list[i] && short[j] == list[j]);
        }
        lemma_sorting_is_stable(short, keys);
        if short.len() > 0 {
            assert(short.last() == list[list.len() - 2]);
            assert(list.last() == list[list.len() - 1]);
        }
        assert(sorted_by_keys(list, keys) =~= list);
    }
}

/// Pieces are read from top to bottom, and from left to right at the same height; where they come in
/// reading order they stay as they come.
pub proof fn lemma_pieces_are_read_downwards(spots: Seq<Spot>, a: int, b: int)
    requires
        0 <= a < b < spots.len() <= usize::MAX,
    ensures
        ({
            let order = line_order(spots, true);
            let p = spots[order[a] as int];
            let q = spots[order[b] as int];
            order_of(p.y) > order_of(q.y) || (order_of(p.y) == order_of(q.y) && order_of(p.x)
                <= order_of(q.x))
        }),
        line_order(spots, false)[a] == a,
        line_order(spots, true).to_multiset() == indices(spots.len()).to_multiset(),
{
    let keys = reading_keys(spots);
    let list = indices(spots.len());
    lemma_sorted_by_keys(list, keys);
    crate::layout::lemma_sorted_members(list, keys, spots.len());
    let order = line_order(spots, true);
    assert(order[a] < spots.len());
    assert(order[b] < spots.len());
    assert(!comes_before(keys[order[b] as int], keys[order[a] as int]));
}

/// The pieces of a line are read from left to right, and from right to left where it is written so.
pub proof fn lemma_pieces_are_read_sideways(spots: Seq<Spot>, list: Seq<usize>, a: int, b: int)
    requires
        0 <= a < b < list.len(),
        forall|i: int| 0 <= i < list.len() ==> (#[trigger] list[i]) < spots.len(),
    ensures
        ({
            let right = sorted_by_keys(list, direction_keys(spots, false));
            order_of(spots[right[a] as int].x) <= order_of(spots[right[b] as int].x)
        }),
        ({
            let left = sorted_by_keys(list, direction_keys(spots, true));
            order_of(spots[left[a] as int].x) >= order_of(spots[left[b] as int].x)
        }),
{
    let r = direction_keys(spots, false);
    let l = direction_keys(spots, true);
    lemma_sorted_by_keys(list, r);
    lemma_sorted_by_keys(list, l);
    crate::layout::lemma_sorted_members(list, r, spots.len());
    crate::layout::lemma_sorted_members(list, l, spots.len());
    let right = sorted_by_keys(list, r);
    let left = sorted_by_keys(list, l);
    assert(right[a] < spots.len() && right[b] < spots.len());
    assert(left[a] < spots.len() && left[b] < spots.len());
    assert(!comes_before(r[right[b] as int], r[right[a] as int]));
    assert(!comes_before(l[left[b] as int], l[left[a] as int]));
}

/// Groups of pieces come page by page, and from top to bottom on each page.
pub proof fn lemma_groups_come_by_page(spots: Seq<Spot>, list: Seq<usize>, a: int, b: int)
    requires
        0 <= a < b < list.len(),
        forall|i: int| 0 <= i < list.len() ==> (#[trigger] list[i]) < spots.len(),
    ensures
        ({
            let order = sorted_by_keys(list, page_keys(spots));
            let p = spots[order[a] as int];
            let q = spots[order[b] as int];
            p.page < q.page || (p.page == q.page && order_of(p.y) >= order_of(q.y))
        }),
{
    let keys = page_keys(spots);
    lemma_sorted_by_keys(list, keys);
    crate::layout::lemma_sorted_members(list, keys, spots.len());
    let order = sorted_by_keys(list, keys);
    assert(order[a] < spots.len() && order[b] < spots.len());
    assert(!comes_before(keys[order[b] as int], keys[order[a] as int]));
}

proof fn lemma_jumps_are_counted(jumps: Seq<Jump>, kind: Jump)
    ensures
        jump_count(jumps, kind) == jumps.to_multiset().count(kind),
    decreases jumps.len(),
{
    broadcast use vstd::seq_lib::group_to_multiset_ensures;

    if jumps.len() > 0 {
        lemma_jumps_are_counted(jumps.drop_last(), kind);
        assert(jumps.drop_last().push(jumps.last()) =~= jumps);
    }
}

/// The order of pieces is no reading order where there are at least four steps and three jumps and more
/// than two in five jumps go up, wherever they are.
pub proof fn lemma_what_a_mess_is(jumps: Seq<Jump>, ups: nat, downs: nat)
    requires
        ups == jumps.to_multiset().count(Jump::Up),
        downs == jumps.to_multiset().count(Jump::Down),
    ensures
        jumps.len() >= 4 && ups + downs >= 3 && 5 * ups > 2 * (ups + downs) ==> is_chaotic(jumps),
        jumps.len() < 4 ==> !is_chaotic(jumps),
        ups + downs < 3 ==> !is_chaotic(jumps),
        5 * ups <= 2 * (ups + downs) ==> !is_chaotic(jumps),
{
    lemma_jumps_are_counted(jumps, Jump::Up);
    lemma_jumps_are_counted(jumps, Jump::Down);
}

// ---------------------------------------------------------------------------------------------
// Columns
// ---------------------------------------------------------------------------------------------

/// Each range of bins adds one to the bins from its start up to but without its end.
pub proof fn lemma_ranges_are_counted(
    bins: nat,
    ranges: Seq<(usize, usize)>,
    range: (usize, usize),
    b: int,
)
    requires
        0 <= b < bins,
        ranges.len() < 0xFFFF_FFFF,
    ensures
        histogram(bins, Seq::empty())[b] == 0,
        histogram(bins, ranges).len() == bins,
        histogram(bins, ranges.push(range))[b] == histogram(bins, ranges)[b] + if range.0 <= b
            < range.1 {
            1int
        } else {
            0int
        },
{
    let n = ranges.len() as int;
    lemma_same_cover(ranges, ranges.push(range), n, b);
    lemma_cover_bound(ranges, n, b);
    assert(ranges.push(range)[n] == range);
}

proof fn lemma_same_cover(a: Seq<(usize, usize)>, b: Seq<(usize, usize)>, n: int, bin: int)
    requires
        0 <= n <= a.len(),
        n <= b.len(),
        forall|k: int| 0 <= k < n ==> a[k] == b[k],
    ensures
        cover_count(a, n, bin) == cover_count(b, n, bin),
    decreases n,
{
    if n > 0 {
        lemma_same_cover(a, b, n - 1, bin);
    }
}

proof fn lemma_cover_bound(ranges: Seq<(usize, usize)>, n: int, bin: int)
    requires
        0 <= n,
    ensures
        cover_count(ranges, n, bin) <= n,
    decreases n,
{
    if n > 0 {
        lemma_cover_bound(ranges, n - 1, bin);
    }
}

proof fn lemma_largest(counts: Seq<u32>)
    ensures
        forall|k: int| 0 <= k < counts.len() ==> (#[trigger] counts[k]) <= largest(counts),
        counts.len() > 0 ==> counts.contains(largest(counts)),
    decreases counts.len(),
{
    if counts.len() > 0 {
        let short = counts.drop_last();
        lemma_largest(short);
        assert forall|k: int| 0 <= k < counts.len() implies (#[trigger] counts[k]) <= largest(
            counts,
        ) by {
            if k < short.len() {
                assert(counts[k] == short[k]);
            }
        }
        if largest(counts) == counts.last() {
            assert(counts[counts.len() - 1] == counts.last());
        } else {
            let i = short.index_of(largest(short));
            assert(counts[i] == largest(short));
        }
    }
}

/// A bin is empty where its count is at most fifteen hundredths of the largest.
pub proof fn lemma_what_empty_bins_are(counts: Seq<u32>, b: int, m: int)
    requires
        0 <= b < counts.len(),
        0 <= m < counts.len(),
        forall|k: int| 0 <= k < counts.len() ==> (#[trigger] counts[k]) <= counts[m],
    ensures
        is_empty_bin(counts, noise_limit(counts), b) <==> 100 * counts[b] <= 15 * counts[m],
{
    lemma_largest(counts);
    assert(counts[m] <= largest(counts));
    let i = counts.index_of(largest(counts));
    assert(counts[i] <= counts[m]);
}

/// Gutters are valleys of at least four bins, away from the margins, with ten pieces or more on either
/// side that stand side by side. All of them separate columns where there are three or fewer; else
/// three do, which no other one surpasses.
pub proof fn lemma_what_gutters_are(valleys: Seq<(usize, usize)>, facts: Seq<ValleyFacts>, k: usize)
    requires
        k < valleys.len() <= usize::MAX,
        facts.len() == valleys.len(),
    ensures
        ({
            let v = valleys[k as int];
            let f = facts[k as int];
            let may = v.1 - v.0 >= 4 && f.is_central && f.left >= 10 && f.right >= 10 && f.is_beside;
            &&& gutters(valleys, facts).contains(k) ==> may
            &&& indices(valleys.len()).filter(gutter_at(valleys, facts)).len() <= 3 ==> (
            gutters(valleys, facts).contains(k) <==> may)
            &&& gutters(valleys, facts).len() <= 3
        }),
{
    broadcast use vstd::seq_lib::group_filter_ensures;
    broadcast use vstd::seq_lib::group_to_multiset_ensures;

    let all = indices(valleys.len());
    let wanted = gutter_at(valleys, facts);
    let valid = all.filter(wanted);
    assert(all[k as int] == k);
    if wanted(k) {
        assert(valid.contains(all[k as int]));
    }
    let scores = crate::layout::score_keys(valleys, facts);
    let places = crate::layout::place_keys(valleys);
    lemma_sorted_by_keys(valid, scores);
    let ranked = sorted_by_keys(valid, scores);
    if valid.len() > 3 {
        lemma_sorted_by_keys(ranked.take(3), places);
    }
    if gutters(valleys, facts).contains(k) && valid.len() > 3 {
        let found = gutters(valleys, facts);
        assert(found.to_multiset().count(k) > 0);
        assert(ranked.take(3).contains(k));
        let i = ranked.take(3).index_of(k);
        assert(ranked[i] == k);
        assert(ranked.contains(k));
        assert(ranked.to_multiset().count(k) > 0);
        assert(valid.contains(k));
    }
    if valid.contains(k) {
        let i = valid.index_of(k);
        assert(wanted(valid[i]));
    }
}

/// Of more than three gutters the best three are taken: the width times the lesser number of pieces at
/// the sides of one that is taken is at least that of one that is not.
pub proof fn lemma_best_gutters_are_taken(
    valleys: Seq<(usize, usize)>,
    facts: Seq<ValleyFacts>,
    a: usize,
    b: usize,
)
    requires
        a < valleys.len() <= usize::MAX,
        b < valleys.len(),
        facts.len() == valleys.len(),
        forall|k: int|
            0 <= k < valleys.len() ==> (#[trigger] valleys[k]).0 <= valleys[k].1 <= 0x1_0000
                && facts[k].left <= 0x1_0000_0000 && facts[k].right <= 0x1_0000_0000,
        gutters(valleys, facts).contains(a),
        !gutters(valleys, facts).contains(b),
        is_gutter(valleys[b as int], facts[b as int]),
    ensures
        worth(valleys[a as int], facts[a as int]) >= worth(valleys[b as int], facts[b as int]),
{
    broadcast use vstd::seq_lib::group_filter_ensures;
    broadcast use vstd::seq_lib::group_to_multiset_ensures;

    let all = indices(valleys.len());
    let wanted = gutter_at(valleys, facts);
    let valid = all.filter(wanted);
    assert(all[b as int] == b);
    assert(wanted(b));
    assert(valid.contains(all[b as int]));
    let scores = crate::layout::score_keys(valleys, facts);
    let places = crate::layout::place_keys(valleys);
    lemma_sorted_by_keys(valid, scores);
    let ranked = sorted_by_keys(valid, scores);
    assert(valid.len() > 3);
    let top = ranked.take(3);
    lemma_sorted_by_keys(top, places);
    let found = gutters(valleys, facts);
    assert(found.to_multiset().count(a) > 0);
    assert(top.contains(a));
    let i = top.index_of(a);
    assert(ranked[i] == a);
    assert(valid.to_multiset().count(b) > 0);
    assert(ranked.contains(b));
    let j = ranked.index_of(b);
    if j < 3 {
        assert(top[j] == b);
        assert(top.to_multiset().count(b) > 0);
        assert(found.contains(b));
    }
    assert(!comes_before(scores[ranked[j] as int], scores[ranked[i] as int]));
    lemma_worth_fits(valleys[a as int], facts[a as int]);
    lemma_worth_fits(valleys[b as int], facts[b as int]);
}

/// The width of a valley times the lesser number of pieces at its sides.
pub open spec fn worth(v: (usize, usize), f: ValleyFacts) -> int {
    (v.1 - v.0) * if f.left <= f.right {
        f.left as int
    } else {
        f.right as int
    }
}

proof fn lemma_worth_fits(v: (usize, usize), f: ValleyFacts)
    requires
        v.0 <= v.1 <= 0x1_0000,
        f.left <= 0x1_0000_0000,
        f.right <= 0x1_0000_0000,
    ensures
        0 <= worth(v, f) <= 0x1_0000_0000_0000,
        gutter_score(v, f) == worth(v, f),
{
    let w = v.1 - v.0;
    let n = if f.left <= f.right {
        f.left as int
    } else {
        f.right as int
    };
    assert(0 <= w * n <= 0x1_0000_0000_0000) by (nonlinear_arith)
        requires
            0 <= w <= 0x1_0000,
            0 <= n <= 0x1_0000_0000,
    ;
}

/// Columns of at least fifteen lines each are read one after the other where they are of similar
/// length, or where more than half of the lines of the shortest have a line beside them. Shorter ones,
/// and a single one, are not.
pub proof fn lemma_what_newspapers_are(counts: Seq<usize>, beside: Seq<bool>, s: int, l: int)
    requires
        0 <= s < counts.len(),
        0 <= l < counts.len(),
        forall|k: int| 0 <= k < counts.len() ==> counts[s] <= (#[trigger] counts[k]) <= counts[l],
    ensures
        is_newspaper(counts, beside) <==> counts.len() >= 2 && counts[s] >= 15 && (10 * counts[s]
            > 7 * counts[l] || 2 * yes_count(beside) > counts[s]),
{
    lemma_least(counts);
    lemma_greatest(counts);
    let i = counts.index_of(least_of(counts));
    let j = counts.index_of(greatest_of(counts));
    assert(counts[s] <= counts[i]);
    assert(counts[j] <= counts[l]);
}

proof fn lemma_least(counts: Seq<usize>)
    requires
        counts.len() > 0,
    ensures
        forall|k: int| 0 <= k < counts.len() ==> least_of(counts) <= #[trigger] counts[k],
        counts.contains(least_of(counts)),
    decreases counts.len(),
{
    let short = counts.drop_last();
    if counts.len() > 1 {
        lemma_least(short);
        assert forall|k: int| 0 <= k < counts.len() implies least_of(counts) <= #[trigger] counts[k] by {
            if k < short.len() {
                assert(counts[k] == short[k]);
            }
        }
        let i = short.index_of(least_of(short));
        assert(counts[i] == least_of(short));
    }
    assert(counts[counts.len() - 1] == counts.last());
    assert(counts[0] == counts.first());
}

proof fn lemma_greatest(counts: Seq<usize>)
    requires
        counts.len() > 0,
    ensures
        forall|k: int| 0 <= k < counts.len() ==> greatest_of(counts) >= #[trigger] counts[k],
        counts.contains(greatest_of(counts)),
    decreases counts.len(),
{
    let short = counts.drop_last();
    if counts.len() > 1 {
        lemma_greatest(short);
        assert forall|k: int| 0 <= k < counts.len() implies greatest_of(counts)
            >= #[trigger] counts[k] by {
            if k < short.len() {
                assert(counts[k] == short[k]);
            }
        }
        let i = short.index_of(greatest_of(short));
        assert(counts[i] == greatest_of(short));
    }
    assert(counts[counts.len() - 1] == counts.last());
    assert(counts[0] == counts.first());
}

/// A column with one wide gap has its longer part for its core, and the lower one where both are as
/// long; a column without a wide gap is its own core.
pub proof fn lemma_cores_of_columns(wide: Seq<bool>, n: int, at: int, s: int, e: int)
    requires
        0 < n,
        wide.len() == n - 1,
        forall|k: int| 0 <= k < wide.len() ==> (#[trigger] wide[k] <==> k == at),
        is_core(wide, n, s, e),
    ensures
        0 <= at < n - 1 && at + 1 > n - (at + 1) ==> s == 0 && e == at + 1,
        0 <= at < n - 1 && at + 1 <= n - (at + 1) ==> s == at + 1 && e == n,
        at < 0 ==> s == 0 && e == n,
{
    if 0 <= at < n - 1 {
        assert(is_block(wide, n, 0, at + 1));
        assert(is_block(wide, n, at + 1, n));
        if s > 0 {
            assert(wide[s - 1]);
        }
        if e < n {
            assert(wide[e - 1]);
        }
    } else {
        if s > 0 {
            assert(wide[s - 1]);
        }
        if e < n {
            assert(wide[e - 1]);
        }
    }
}

/// Whether each column is its own core.
pub open spec fn are_whole(columns: Seq<Seq<usize>>, cores: Seq<(usize, usize)>) -> bool {
    cores.len() == columns.len() && forall|c: int|
        0 <= c < columns.len() ==> (#[trigger] cores[c]).0 == 0 && cores[c].1 == columns[c].len()
}

proof fn lemma_filter_none(wanted: spec_fn(usize) -> bool)
    ensures
        Seq::<usize>::empty().filter(wanted) == Seq::<usize>::empty(),
{
    reveal(Seq::filter);
}

proof fn lemma_no_stragglers(
    columns: Seq<Seq<usize>>,
    cores: Seq<(usize, usize)>,
    above: Seq<bool>,
    wanted: bool,
    n: int,
)
    requires
        0 <= n <= columns.len(),
        are_whole(columns, cores),
    ensures
        stragglers(columns, cores, above, wanted, n).len() == 0,
    decreases n,
{
    if n > 0 {
        lemma_no_stragglers(columns, cores, above, wanted, n - 1);
        let rest = outside(columns[n - 1], cores[n - 1]);
        assert(cores[n - 1].0 == 0);
        assert(rest.len() == 0);
        assert(rest =~= Seq::<usize>::empty());
        lemma_filter_none(is_where(above, wanted));
    }
}

proof fn lemma_cores_are_columns(columns: Seq<Seq<usize>>, cores: Seq<(usize, usize)>, n: int)
    requires
        0 <= n <= columns.len(),
        are_whole(columns, cores),
    ensures
        joined_cores(columns, cores, n) == joined_lists(columns.take(n)),
    decreases n,
{
    if n > 0 {
        lemma_cores_are_columns(columns, cores, n - 1);
        let c = columns[n - 1];
        assert(cores[n - 1].0 == 0);
        assert(c.subrange(0, c.len() as int) =~= c);
        assert(columns.take(n).drop_last() =~= columns.take(n - 1));
        assert(columns.take(n).last() == c);
    } else {
        assert(columns.take(0).len() == 0);
    }
}

proof fn lemma_filter_all_or_none(list: Seq<usize>, wanted: spec_fn(usize) -> bool, yes: bool)
    requires
        forall|k: int| 0 <= k < list.len() ==> wanted(#[trigger] list[k]) == yes,
    ensures
        yes ==> list.filter(wanted) == list,
        !yes ==> list.filter(wanted).len() == 0,
    decreases list.len(),
{
    reveal(Seq::filter);
    if list.len() > 0 {
        lemma_filter_all_or_none(list.drop_last(), wanted, yes);
        assert(list.drop_last().push(list.last()) =~= list);
        assert(wanted(list[list.len() - 1]) == yes);
    }
}

/// Four lists, one behind the other.
#[verifier::opaque]
spec fn in_turn(a: Seq<usize>, b: Seq<usize>, c: Seq<usize>, d: Seq<usize>) -> Seq<usize> {
    a + b + c + d
}

proof fn lemma_in_turn(a: Seq<usize>, b: Seq<usize>, none: Seq<usize>)
    requires
        none.len() == 0,
    ensures
        in_turn(a, b, none, none) == a + b,
        in_turn(none, b, none, a) == b + a,
{
    reveal(in_turn);
    assert(a + b + none + none =~= a + b);
    assert(none + b + none + a =~= b + a);
}

proof fn lemma_empty(list: Seq<usize>)
    requires
        list.len() == 0,
    ensures
        list == Seq::<usize>::empty(),
{
}

proof fn lemma_adds_nothing(a: Seq<usize>, none: Seq<usize>)
    requires
        none.len() == 0,
    ensures
        a + none == a,
{
}

proof fn lemma_parts_of_the_order(
    spanning: Seq<usize>,
    columns: Seq<Seq<usize>>,
    cores: Seq<(usize, usize)>,
    above: Seq<bool>,
    heights: Seq<u32>,
    first: Seq<usize>,
    last: Seq<usize>,
    keys: Seq<(i64, i64)>,
)
    requires
        first == spanning.filter(is_where(above, true)) + stragglers(
            columns,
            cores,
            above,
            true,
            columns.len() as int,
        ),
        last == spanning.filter(is_where(above, false)),
        keys == height_keys(heights),
    ensures
        newspaper_order(spanning, columns, cores, above, heights) == in_turn(
            sorted_by_keys(first, keys),
            joined_cores(columns, cores, columns.len() as int),
            stragglers(columns, cores, above, false, columns.len() as int),
            sorted_by_keys(last, keys),
        ),
{
    reveal(in_turn);
}

/// Columns without stragglers are read one after the other, each as a whole; lines that span them come
/// before all columns where they stand above, and behind all columns elsewhere, from top to bottom.
#[verifier::spinoff_prover]
pub proof fn lemma_columns_are_read_in_turn(
    spanning: Seq<usize>,
    columns: Seq<Seq<usize>>,
    cores: Seq<(usize, usize)>,
    above: Seq<bool>,
    heights: Seq<u32>,
    yes: bool,
)
    requires
        are_whole(columns, cores),
        forall|k: int| 0 <= k < spanning.len() ==> above[#[trigger] spanning[k] as int] == yes,
    ensures
        yes ==> newspaper_order(spanning, columns, cores, above, heights) == sorted_by_keys(
            spanning,
            height_keys(heights),
        ) + joined_lists(columns),
        !yes ==> newspaper_order(spanning, columns, cores, above, heights) == joined_lists(columns)
            + sorted_by_keys(spanning, height_keys(heights)),
{
    let n = columns.len() as int;
    let keys = height_keys(heights);
    let up = spanning.filter(is_where(above, true));
    let down = spanning.filter(is_where(above, false));
    let first = up + stragglers(columns, cores, above, true, n);
    let none = Seq::<usize>::empty();
    let all = joined_lists(columns);
    lemma_parts_of_the_order(spanning, columns, cores, above, heights, first, down, keys);
    lemma_no_stragglers(columns, cores, above, true, n);
    lemma_no_stragglers(columns, cores, above, false, n);
    lemma_empty(stragglers(columns, cores, above, false, n));
    lemma_adds_nothing(up, stragglers(columns, cores, above, true, n));
    lemma_cores_are_columns(columns, cores, n);
    assert(columns.take(n) =~= columns);
    lemma_filter_all_or_none(spanning, is_where(above, true), yes);
    lemma_filter_all_or_none(spanning, is_where(above, false), !yes);
    lemma_sorting_is_stable(none, keys);
    if yes {
        lemma_empty(down);
    } else {
        lemma_empty(up);
    }
    lemma_in_turn(sorted_by_keys(spanning, keys), all, none);
}

// ---------------------------------------------------------------------------------------------
// Merged pieces
// ---------------------------------------------------------------------------------------------

/// Pieces that belong together are put behind each other, with a space between them where the link asks
/// for one, and without elsewhere.
pub proof fn lemma_linked_pieces(
    texts: Seq<Seq<char>>,
    links: Seq<Link>,
    text: Seq<char>,
    n: int,
)
    requires
        n == texts.len(),
        n == links.len(),
    ensures
        linked_text(texts.push(text), links.push(Link::JoinSpaced), n + 1) == linked_text(
            texts,
            links,
            n,
        ) + seq![' '] + text,
        linked_text(texts.push(text), links.push(Link::Join), n + 1) == linked_text(
            texts,
            links,
            n,
        ) + text,
        linked_text(texts, links, 0) == Seq::<char>::empty(),
{
    lemma_same_links(texts, texts.push(text), links, links.push(Link::JoinSpaced), n);
    lemma_same_links(texts, texts.push(text), links, links.push(Link::Join), n);
    let before = linked_text(texts, links, n);
    assert(before.push(' ') =~= before + seq![' ']);
}

proof fn lemma_same_links(
    a: Seq<Seq<char>>,
    b: Seq<Seq<char>>,
    la: Seq<Link>,
    lb: Seq<Link>,
    n: int,
)
    requires
        0 <= n <= a.len(),
        n <= b.len(),
        n <= la.len(),
        n <= lb.len(),
        forall|k: int| 0 <= k < n ==> a[k] == b[k],
        forall|k: int| 0 <= k < n ==> la[k] == lb[k],
    ensures
        linked_text(a, la, n) == linked_text(b, lb, n),
    decreases n,
{
    if n > 0 {
        lemma_same_links(a, b, la, lb, n - 1);
    }
}

} // verus!
