//! In which order a page is read: laws on pages, columns and their tops.

use crate::layout::{is_newspaper, least_of, line_counts, Spot};
use crate::layout_laws::lemma_what_newspapers_are;
use crate::numbers::order_of;
use crate::ordering::yes_count;
use crate::page_lines::{are_pages, is_on, on_page, pages_of_list};
use crate::reading::{best_column, column_pieces, has_turns, highest, lowest_top, ColumnSpan};
use vstd::prelude::*;

verus! {

// ---------------------------------------------------------------------------------------------
// Pages
// ---------------------------------------------------------------------------------------------

/// The pieces of a page are those that are on it, in their order; each page of a piece is read, and
/// pages are read in ascending order.
pub proof fn lemma_pages_hold_their_pieces(
    list: Seq<usize>,
    spots: Seq<Spot>,
    pages: Seq<u32>,
    page: u32,
    i: int,
    a: int,
    b: int,
)
    requires
        0 <= i < list.len(),
    ensures
        on_page(list, spots, page).contains(list[i]) <==> spots[list[i] as int].page == page,
        on_page(list, spots, page).len() <= list.len(),
        are_pages(pages, list, spots) ==> pages.contains(spots[list[i] as int].page),
        are_pages(pages, list, spots) && 0 <= a < b < pages.len() ==> pages[a] < pages[b],
{
    broadcast use vstd::seq_lib::group_filter_ensures;

    let wanted = is_on(spots, page);
    list.lemma_filter_len(wanted);
    if wanted(list[i]) {
        assert(list.filter(wanted).contains(list[i]));
    } else if list.filter(wanted).contains(list[i]) {
        let k = list.filter(wanted).index_of(list[i]);
        assert(wanted(list.filter(wanted)[k]));
    }
    let all = pages_of_list(list, spots);
    assert(all[i] == spots[list[i] as int].page);
    assert(all.contains(spots[list[i] as int].page));
}

// ---------------------------------------------------------------------------------------------
// Columns
// ---------------------------------------------------------------------------------------------

proof fn lemma_two_yes(answers: Seq<bool>, i: int, j: int)
    requires
        0 <= i < j < answers.len(),
        answers[i],
        answers[j],
    ensures
        yes_count(answers) >= 2,
    decreases answers.len(),
{
    let short = answers.drop_last();
    if j < short.len() {
        assert(short[i] && short[j]);
        lemma_two_yes(short, i, j);
    } else {
        assert(short[i]);
        lemma_one_yes(short, i);
    }
}

proof fn lemma_one_yes(answers: Seq<bool>, i: int)
    requires
        0 <= i < answers.len(),
        answers[i],
    ensures
        yes_count(answers) >= 1,
    decreases answers.len(),
{
    let short = answers.drop_last();
    if i < short.len() {
        assert(short[i]);
        lemma_one_yes(short, i);
    }
}

proof fn lemma_few_yes(answers: Seq<bool>, i: int)
    requires
        forall|k: int| 0 <= k < answers.len() && #[trigger] answers[k] ==> k == i,
    ensures
        yes_count(answers) <= if 0 <= i < answers.len() {
            1nat
        } else {
            0nat
        },
    decreases answers.len(),
{
    if answers.len() > 0 {
        let short = answers.drop_last();
        assert forall|k: int| 0 <= k < short.len() && #[trigger] short[k] implies k == i by {
            assert(answers[k]);
        }
        lemma_few_yes(short, i);
        if answers.last() {
            assert(answers[answers.len() - 1]);
        }
    }
}

/// A piece that reaches into two columns spans columns, and is in none of them; one that reaches into one
/// at most does not, and is in the column that it overlaps most, the first one of those that it overlaps
/// as much.
pub proof fn lemma_where_pieces_belong(
    pieces: Seq<ColumnSpan>,
    k: usize,
    i: int,
    j: int,
    c: int,
)
    requires
        k < pieces.len() <= usize::MAX,
        0 <= c < pieces[k as int].overlaps@.len(),
        forall|b: int|
            0 <= b < c ==> order_of(#[trigger] pieces[k as int].overlaps@[b]) < order_of(
                pieces[k as int].overlaps@[c],
            ),
        forall|b: int|
            c < b < pieces[k as int].overlaps@.len() ==> order_of(
                #[trigger] pieces[k as int].overlaps@[b],
            ) <= order_of(pieces[k as int].overlaps@[c]),
    ensures
        ({
            let reaches = pieces[k as int].reaches@;
            let two = 0 <= i < j < reaches.len() && reaches[i] && reaches[j];
            let one = forall|b: int| 0 <= b < reaches.len() && #[trigger] reaches[b] ==> b == i;
            &&& two ==> column_pieces(pieces, None).contains(k) && !column_pieces(
                pieces,
                Some(c),
            ).contains(k)
            &&& one ==> column_pieces(pieces, Some(c)).contains(k) && !column_pieces(
                pieces,
                None,
            ).contains(k)
        }),
{
    let piece = pieces[k as int];
    lemma_first_best(piece.overlaps@, piece.overlaps@.len() as int, c);
    crate::reading::lemma_pieces_have_one_place(pieces, piece.overlaps@.len(), k);
    let reaches = piece.reaches@;
    if 0 <= i < j < reaches.len() && reaches[i] && reaches[j] {
        lemma_two_yes(reaches, i, j);
    }
    if forall|b: int| 0 <= b < reaches.len() && #[trigger] reaches[b] ==> b == i {
        lemma_few_yes(reaches, i);
    }
}

proof fn lemma_first_best(overlaps: Seq<u32>, n: int, c: int)
    requires
        1 <= n <= overlaps.len(),
        0 <= c < overlaps.len(),
        forall|b: int| 0 <= b < c ==> order_of(#[trigger] overlaps[b]) < order_of(overlaps[c]),
        forall|b: int|
            c < b < overlaps.len() ==> order_of(#[trigger] overlaps[b]) <= order_of(overlaps[c]),
    ensures
        0 <= best_column(overlaps, n) < n,
        n > c ==> best_column(overlaps, n) == c,
    decreases n,
{
    if n > 1 {
        lemma_first_best(overlaps, n - 1, c);
        let best = best_column(overlaps, n - 1);
        if n - 1 == c {
            assert(order_of(overlaps[best]) < order_of(overlaps[c]));
        } else if n - 1 > c {
            assert(order_of(overlaps[n - 1]) <= order_of(overlaps[c]));
        }
    }
}

/// Columns of the same number of lines, fifteen or more, are read one after the other; where a column has
/// fewer, or there is only one, they are not.
pub proof fn lemma_when_columns_are_read_in_turn<B: Fn(u32, u32) -> bool>(
    beside: B,
    heights: Seq<Seq<u32>>,
    turns: bool,
    n: nat,
    c: int,
)
    requires
        has_turns(beside, heights, turns),
        0 <= c < heights.len(),
        n <= usize::MAX / 10,
        forall|k: int| 0 <= k < heights.len() ==> (#[trigger] heights[k]).len() <= usize::MAX,
    ensures
        heights.len() < 2 ==> !turns,
        heights[c].len() < 15 ==> !turns,
        heights.len() >= 2 && n >= 15 && (forall|k: int|
            0 <= k < heights.len() ==> (#[trigger] heights[k]).len() == n) ==> turns,
{
    let counts = line_counts(heights);
    assert(counts.len() == heights.len());
    assert(counts[c] == heights[c].len());
    lemma_least_count(counts);
    if heights.len() >= 2 && n >= 15 && (forall|k: int|
        0 <= k < heights.len() ==> (#[trigger] heights[k]).len() == n) {
        assert forall|k: int| 0 <= k < counts.len() implies counts[0] <= (#[trigger] counts[k])
            <= counts[0] by {
            assert(heights[k].len() == n);
            assert(heights[0].len() == n);
        }
        assert(counts[0] == n) by {
            assert(heights[0].len() == n);
        }
        let i = counts.index_of(least_of(counts));
        assert(counts[i] == least_of(counts));
        let answers = choose|answers: Seq<bool>| #[trigger]
            crate::layout::are_beside(
                beside,
                heights,
                crate::layout::shortest(counts),
                answers,
            ) && turns == is_newspaper(counts, answers);
        lemma_what_newspapers_are(counts, answers, 0, 0);
    }
}

proof fn lemma_least_count(counts: Seq<usize>)
    requires
        counts.len() > 0,
    ensures
        forall|k: int| 0 <= k < counts.len() ==> least_of(counts) <= #[trigger] counts[k],
        counts.contains(least_of(counts)),
    decreases counts.len(),
{
    let short = counts.drop_last();
    if counts.len() > 1 {
        lemma_least_count(short);
        assert forall|k: int| 0 <= k < counts.len() implies least_of(counts) <= #[trigger] counts[k] by {
            if k < short.len() {
                assert(counts[k] == short[k]);
            }
        }
        let i = short.index_of(least_of(short));
        assert(counts[i] == least_of(short));
    }
    assert(counts[counts.len() - 1] == counts.last());
    assert(counts[0] == counts.first());
}

// ---------------------------------------------------------------------------------------------
// The tops of columns
// ---------------------------------------------------------------------------------------------

/// The highest of heights is one of them, and none is above it.
pub proof fn lemma_highest_is_the_greatest(heights: Seq<u32>, k: int)
    requires
        0 <= k < heights.len(),
        forall|i: int|
            0 <= i < heights.len() ==> order_of(#[trigger] heights[i]) > order_of(0xFF80_0000),
    ensures
        order_of(heights[k]) <= order_of(highest(heights)),
        heights.contains(highest(heights)),
    decreases heights.len(),
{
    let short = heights.drop_last();
    assert(heights[heights.len() - 1] == heights.last());
    if heights.len() == 1 {
        assert(highest(short) == 0xFF80_0000);
        assert(highest(heights) == heights.last());
    } else {
        assert forall|i: int| 0 <= i < short.len() implies order_of(#[trigger] short[i]) > order_of(
            0xFF80_0000,
        ) by {
            assert(short[i] == heights[i]);
        }
        lemma_highest_is_the_greatest(
            short,
            if k < short.len() {
                k
            } else {
                0
            },
        );
        if k < short.len() {
            assert(short[k] == heights[k]);
        }
        let i = short.index_of(highest(short));
        assert(heights[i] == highest(short));
    }
}

/// The top from which lines are above all columns is not above the top of any of them: it is the lowest of
/// the tops of the columns whose core holds lines.
pub proof fn lemma_the_lowest_top_counts(
    heights: Seq<Seq<u32>>,
    cores: Seq<(usize, usize)>,
    n: int,
    c: int,
)
    requires
        0 <= c < n,
        ({
            let core = heights[c].subrange(cores[c].0 as int, cores[c].1 as int);
            core.len() > 0
        }),
    ensures
        ({
            let core = heights[c].subrange(cores[c].0 as int, cores[c].1 as int);
            order_of(lowest_top(heights, cores, n)) <= order_of(highest(core))
        }),
        lowest_top(heights, cores, n) == 0x7F80_0000 || exists|d: int|
            0 <= d < n && #[trigger] is_top_of(heights, cores, d, lowest_top(heights, cores, n)),
    decreases n,
{
    let own = heights[n - 1].subrange(cores[n - 1].0 as int, cores[n - 1].1 as int);
    let before = lowest_top(heights, cores, n - 1);
    let after = lowest_top(heights, cores, n);
    lemma_some_top(heights, cores, n);
    if c < n - 1 {
        lemma_the_lowest_top_counts(heights, cores, n - 1, c);
    }
}

/// Whether a height is the top of a column.
pub open spec fn is_top_of(
    heights: Seq<Seq<u32>>,
    cores: Seq<(usize, usize)>,
    c: int,
    top: u32,
) -> bool {
    top == highest(heights[c].subrange(cores[c].0 as int, cores[c].1 as int))
}

proof fn lemma_some_top(heights: Seq<Seq<u32>>, cores: Seq<(usize, usize)>, n: int)
    ensures
        lowest_top(heights, cores, n) == 0x7F80_0000 || exists|d: int|
            0 <= d < n && #[trigger] is_top_of(heights, cores, d, lowest_top(heights, cores, n)),
    decreases n,
{
    if n > 0 {
        lemma_some_top(heights, cores, n - 1);
        let before = lowest_top(heights, cores, n - 1);
        let after = lowest_top(heights, cores, n);
        if after == before {
            if before != 0x7F80_0000 {
                let d = choose|d: int|
                    0 <= d < n - 1 && #[trigger] is_top_of(heights, cores, d, before);
                assert(is_top_of(heights, cores, d, after));
            }
        } else {
            assert(is_top_of(heights, cores, n - 1, after));
        }
    }
}

} // verus!
