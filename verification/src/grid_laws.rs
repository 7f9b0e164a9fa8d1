//! Which grids are tables, and what is merged in them: laws on the rules for tables.

use crate::numbers::order_of;
use crate::ordering::{
    comes_before, indices, lemma_sorted_by_keys, median, sorted_by_keys, value_keys, yes_count,
};
use crate::tables::{
    are_answers, are_cells_short, are_snapped, are_stripes, column_minimum, column_text,
    covered_cells, filled_cells, filled_in_row, filled_rows, grid_spans, grid_table, group_table,
    is_column_filled, is_hint_region, is_set, is_table, merged_span, merged_spans, placed_items,
    rect_span, rectangle_rule, text_table, with_word, GridRect, Sheet,
};
use crate::text::trimmed;
use vstd::prelude::*;

verus! {

// ---------------------------------------------------------------------------------------------
// Rules
// ---------------------------------------------------------------------------------------------

/// A row of cells has one filled cell more for each cell that holds more than white space.
pub proof fn lemma_filled_cells_are_counted(
    row: Seq<Seq<char>>,
    cell: Seq<char>,
    cells: Seq<Seq<Seq<char>>>,
    n: int,
)
    requires
        0 <= n < cells.len(),
    ensures
        filled_in_row(Seq::<Seq<char>>::empty()) == 0,
        filled_in_row(row.push(cell)) == filled_in_row(row) + if trimmed(cell).len() > 0 {
            1int
        } else {
            0int
        },
        filled_cells(cells, n + 1) == filled_cells(cells, n) + filled_in_row(cells[n]),
        filled_rows(cells, n + 1) == filled_rows(cells, n) + if filled_in_row(cells[n]) > 0 {
            1int
        } else {
            0int
        },
        filled_cells(cells, 0) == 0,
        filled_rows(cells, 0) == 0,
{
    assert(row.push(cell).drop_last() =~= row);
}

/// The cells of a grid of rectangles: in grids of up to ten columns those that rectangles span are merged.
pub open spec fn merged_cells(sheet: Sheet, page: u32) -> Seq<Seq<Seq<char>>> {
    let spans = grid_spans(sheet.rects@, sheet.columns@.len() as int);
    if sheet.columns@.len() <= 10 {
        merged_spans(sheet.filled(page), spans, spans.len() as int)
    } else {
        sheet.filled(page)
    }
}

/// A grid of rectangles is a table where it has two to 25 columns and three rows or more, three cells in
/// ten are covered, a text falls into it, no column is blank, and as much is filled as its rule asks for:
/// two rows and a quarter of the cells; by the strict rule half of the rows and two cells in five, and no
/// cell of more than 200 bytes.
pub proof fn lemma_when_grids_are_tables(sheet: Sheet, page: u32, strict: bool)
    requires
        sheet.wf(),
        sheet.rows@.len() <= usize::MAX,
    ensures
        ({
            let rows = sheet.rows@.len();
            let cols = sheet.columns@.len();
            let cells = merged_cells(sheet, page);
            let area = (rows * cols) as int;
            grid_table(sheet, page, strict) is Some <==> {
                &&& 2 <= cols <= 25
                &&& rows >= 3
                &&& 10 * covered_cells(sheet.rects@, cols as int, rows as int) >= 3 * area
                &&& placed_items(sheet.items@, page, sheet.items@.len()).len() > 0
                &&& forall|c: int| 0 <= c < cols ==> #[trigger] is_column_filled(cells, c)
                &&& !strict ==> filled_rows(cells, rows as int) >= 2 && 4 * filled_cells(
                    cells,
                    rows as int,
                ) >= area
                &&& strict ==> filled_rows(cells, rows as int) >= rows / 2 && 5 * filled_cells(
                    cells,
                    rows as int,
                ) >= 2 * area && are_cells_short(cells, 200)
            }
        }),
{
    let rows = sheet.rows@.len();
    let cols = sheet.columns@.len();
    let cells = merged_cells(sheet, page);
    let rule = rectangle_rule(rows as usize, strict);
    lemma_shares(filled_cells(cells, rows as int), rows * cols);
    assert(rows as usize == rows);
    assert(is_table(cells, rows, cols, rule) <==> {
        &&& forall|c: int| 0 <= c < cols ==> #[trigger] is_column_filled(cells, c)
        &&& filled_rows(cells, rows as int) >= rule.min_rows
        &&& filled_cells(cells, rows as int) * 100 >= rule.min_percent * (rows * cols)
        &&& strict ==> are_cells_short(cells, 200)
    });
    assert(grid_table(sheet, page, strict) is Some <==> {
        &&& 2 <= cols <= 25
        &&& rows >= 3
        &&& 10 * covered_cells(sheet.rects@, cols as int, rows as int) >= 3 * (rows * cols)
        &&& placed_items(sheet.items@, page, sheet.items@.len()).len() > 0
        &&& is_table(cells, rows, cols, rule)
    });
}

proof fn lemma_shares(filled: nat, area: nat)
    ensures
        filled * 100 >= 25 * area <==> 4 * filled >= area,
        filled * 100 >= 40 * area <==> 5 * filled >= 2 * area,
{
}

/// A grid whose columns come from the text is a table where it has two columns and three rows or more, a
/// text falls into it, no column is blank, two rows and two cells in five are filled.
pub proof fn lemma_when_text_grids_are_tables(sheet: Sheet, page: u32)
    ensures
        ({
            let rows = sheet.rows@.len();
            let cols = sheet.columns@.len();
            let cells = sheet.filled(page);
            text_table(sheet, page) is Some <==> {
                &&& cols >= 2
                &&& rows >= 3
                &&& placed_items(sheet.items@, page, sheet.items@.len()).len() > 0
                &&& forall|c: int| 0 <= c < cols ==> #[trigger] is_column_filled(cells, c)
                &&& filled_rows(cells, rows as int) >= 2
                &&& 5 * filled_cells(cells, rows as int) >= 2 * (rows * cols)
            }
        }),
{
    let rows = sheet.rows@.len();
    let cols = sheet.columns@.len();
    lemma_shares(filled_cells(sheet.filled(page), rows as int), rows * cols);
}

/// The table of a cluster is that of its grid; where that is none, a grid of eleven rows or more without
/// the columns of a background may be one, by the strict rule.
pub proof fn lemma_tables_without_a_background(whole: Sheet, bare: Sheet, page: u32, k: int)
    requires
        0 <= k < bare.rects@.len(),
    ensures
        grid_table(whole, page, false) is Some ==> group_table(whole, bare, page) == grid_table(
            whole,
            page,
            false,
        ),
        grid_table(whole, page, false) is None && bare.rects@[k].is_background && bare.rows@.len()
            >= 11 ==> group_table(whole, bare, page) == grid_table(bare, page, true),
        grid_table(whole, page, false) is None && bare.rows@.len() < 11 ==> group_table(
            whole,
            bare,
            page,
        ) is None,
        grid_table(whole, page, false) is None && (forall|i: int|
            0 <= i < bare.rects@.len() ==> !(#[trigger] bare.rects@[i]).is_background)
            ==> group_table(whole, bare, page) is None,
{
}

/// Rectangles are stripes where there are three or more, their median is wider than 200, and more than
/// three in four are about as wide.
pub proof fn lemma_when_rectangles_are_stripes(widths: Seq<u32>, alike: Seq<bool>)
    requires
        median(widths) <= 0x7F80_0000,
    ensures
        are_stripes(widths, alike) <==> widths.len() >= 3 && order_of(median(widths)) > order_of(
            0x4348_0000,
        ) && 4 * yes_count(alike) > 3 * widths.len(),
{
}

/// A column of texts needs two of them at least, and a quarter of what each column has on the average.
pub proof fn lemma_columns_need_texts(items: nat, columns: nat, count: nat)
    requires
        columns > 0,
    ensures
        count >= column_minimum(items, columns) <==> count >= 2 && count >= items / columns / 4,
{
}

// ---------------------------------------------------------------------------------------------
// Merged cells
// ---------------------------------------------------------------------------------------------

/// Cells that are merged are one: the texts of the lower ones go behind that of the first, separated by a
/// space, the lower ones are left blank, and no other cell changes.
pub proof fn lemma_merged_cells(
    cells: Seq<Seq<Seq<char>>>,
    col: int,
    first: int,
    r: int,
    c: int,
    a: Seq<char>,
    b: Seq<char>,
)
    requires
        0 <= first < cells.len() - 1,
        0 <= r < cells.len(),
        forall|i: int| 0 <= i < cells.len() ==> 0 <= col < (#[trigger] cells[i]).len(),
        0 <= c < cells[r].len(),
        cells[first][col] == a,
        cells[first + 1][col] == b,
        trimmed(a) == a,
        trimmed(b) == b,
        a.len() > 0,
        b.len() > 0,
    ensures
        merged_span(cells, col, first, first + 1)[first][col] == a + seq![' '] + b,
        merged_span(cells, col, first, first + 1)[first + 1][col] == Seq::<char>::empty(),
        c != col || r < first || r > first + 1 ==> merged_span(cells, col, first, first + 1)[r][c]
            == cells[r][c],
        merged_span(cells, col, first, first + 1).len() == cells.len(),
{
    assert(0 <= col < cells[first].len());
    assert(0 <= col < cells[first + 1].len());
    reveal_with_fuel(column_text, 3);
    let none = Seq::<char>::empty();
    assert(with_word(none, a) =~= a);
    assert(column_text(cells, col, first, first + 1) =~= a);
    assert(with_word(a, b) =~= a + seq![' '] + b);
    assert(column_text(cells, col, first, first + 2) =~= a + seq![' '] + b);
}

/// A rectangle that is no background spans the rows from the first to the last that it reaches over, in
/// each column that it reaches over; in one row, or over no row of the grid, it spans nothing.
pub proof fn lemma_what_rectangles_span(rect: GridRect, col: int, first: int, last: int)
    requires
        0 <= first <= last < rect.over_rows@.len(),
        0 <= col < rect.over_cols@.len(),
        forall|k: int|
            0 <= k < rect.over_rows@.len() ==> (#[trigger] rect.over_rows@[k] <==> first <= k <= last),
    ensures
        rect.over_cols@[col] && !rect.is_background && first < last ==> rect_span(rect, col) == Some(
            (first, last),
        ),
        !rect.over_cols@[col] || rect.is_background || first == last ==> rect_span(rect, col) is None,
{
    lemma_first(rect.over_rows@, 0, first);
    lemma_last(rect.over_rows@, rect.over_rows@.len() as int, last);
}

proof fn lemma_first(flags: Seq<bool>, from: int, first: int)
    requires
        0 <= from <= first < flags.len(),
        flags[first],
        forall|k: int| 0 <= k < first ==> !(#[trigger] flags[k]),
    ensures
        crate::tables::first_set(flags, from) == Some(first),
    decreases first - from,
{
    if from < first {
        lemma_first(flags, from + 1, first);
    }
}

proof fn lemma_last(flags: Seq<bool>, n: int, last: int)
    requires
        0 <= last < n <= flags.len(),
        flags[last],
        forall|k: int| last < k < flags.len() ==> !(#[trigger] flags[k]),
    ensures
        crate::tables::last_set(flags, n) == Some(last),
    decreases n,
{
    if n - 1 > last {
        lemma_last(flags, n - 1, last);
    }
}

// ---------------------------------------------------------------------------------------------
// Medians
// ---------------------------------------------------------------------------------------------

/// Whether an order puts values in ascending order, and holds each of them once.
pub open spec fn orders_values(order: Seq<usize>, values: Seq<u32>) -> bool {
    order.to_multiset() == indices(values.len()).to_multiset() && forall|i: int, j: int|
        0 <= i <= j < order.len() ==> order_of(values[#[trigger] order[i] as int]) <= order_of(
            values[#[trigger] order[j] as int],
        )
}

/// The median is the value in the middle, when they are put in ascending order; of an even number the
/// greater one.
pub proof fn lemma_medians_are_in_the_middle(values: Seq<u32>)
    requires
        0 < values.len() <= usize::MAX,
    ensures
        exists|order: Seq<usize>| #[trigger]
            orders_values(order, values) && order.len() == values.len() && median(values)
                == values[order[values.len() as int / 2] as int],
{
    let list = indices(values.len());
    let keys = value_keys(values);
    lemma_sorted_by_keys(list, keys);
    crate::layout::lemma_sorted_members(list, keys, values.len());
    let order = sorted_by_keys(list, keys);
    assert forall|i: int, j: int| 0 <= i <= j < order.len() implies order_of(
        values[#[trigger] order[i] as int],
    ) <= order_of(values[#[trigger] order[j] as int]) by {
        assert(order[i] < values.len() && order[j] < values.len());
        assert(!comes_before(keys[order[j] as int], keys[order[i] as int]));
    }
    assert(orders_values(order, values));
}

// ---------------------------------------------------------------------------------------------
// Hints and edges
// ---------------------------------------------------------------------------------------------

/// A region of hints has two to eight heights; it holds all of them where all are near their median, and
/// there is none where none is.
pub proof fn lemma_what_hint_regions_hold<F: Fn(u32, u32) -> bool>(
    r: Option<Vec<usize>>,
    heights: Seq<u32>,
    fits: F,
    k: usize,
)
    requires
        is_hint_region(r, heights, fits),
        k < heights.len(),
    ensures
        heights.len() < 2 || heights.len() > 8 ==> r is None,
        2 <= heights.len() <= 8 && (forall|v: u32, m: u32| !(#[trigger] fits.ensures((v, m), false)))
            ==> r is Some && r->0@ == indices(heights.len()),
        2 <= heights.len() <= 8 && (forall|v: u32, m: u32| !(#[trigger] fits.ensures((v, m), true)))
            ==> r is None,
{
    if 2 <= heights.len() <= 8 {
        let answers = choose|answers: Seq<bool>|
            {
                &&& #[trigger] are_answers(fits, heights, answers)
                &&& r is Some == (yes_count(answers) >= 2)
                &&& r matches Some(kept) ==> kept@ == indices(heights.len()).filter(is_set(answers))
            };
        if forall|v: u32, m: u32| !(#[trigger] fits.ensures((v, m), false)) {
            assert forall|i: int| 0 <= i < answers.len() implies #[trigger] answers[i] == true by {
                assert(fits.ensures((heights[i], median(heights)), answers[i]));
            }
            lemma_all_answers(answers, true);
            lemma_all_set(answers, heights.len());
        }
        if forall|v: u32, m: u32| !(#[trigger] fits.ensures((v, m), true)) {
            assert forall|i: int| 0 <= i < answers.len() implies #[trigger] answers[i] == false by {
                assert(fits.ensures((heights[i], median(heights)), answers[i]));
            }
            lemma_all_answers(answers, false);
        }
    }
}

proof fn lemma_all_answers(answers: Seq<bool>, yes: bool)
    requires
        forall|i: int| 0 <= i < answers.len() ==> #[trigger] answers[i] == yes,
    ensures
        yes_count(answers) == if yes {
            answers.len()
        } else {
            0
        },
    decreases answers.len(),
{
    if answers.len() > 0 {
        let short = answers.drop_last();
        assert forall|i: int| 0 <= i < short.len() implies #[trigger] short[i] == yes by {
            assert(short[i] == answers[i]);
        }
        lemma_all_answers(short, yes);
        assert(answers[answers.len() - 1] == yes);
    }
}

proof fn lemma_all_set(answers: Seq<bool>, n: nat)
    requires
        n <= answers.len(),
        n <= 8,
        forall|i: int| 0 <= i < answers.len() ==> #[trigger] answers[i],
    ensures
        indices(n).filter(is_set(answers)) == indices(n),
    decreases n,
{
    reveal(Seq::filter);
    if n > 0 {
        let less = (n - 1) as nat;
        lemma_all_set(answers, less);
        assert(indices(n).drop_last() =~= indices(less));
        assert(indices(n).last() == less as usize);
        assert(answers[less as int]);
        assert(is_set(answers)(less as usize));
        assert(indices(less).push(less as usize) =~= indices(n));
    }
}

/// The edges that stay are edges of the list, from its first one on; each of them is not near the one
/// kept before it, and each edge that goes is near the one that was kept last.
pub proof fn lemma_edges_that_stay<F: Fn(u32, u32) -> bool>(
    near: F,
    edges: Seq<u32>,
    n: int,
    kept: Seq<u32>,
    k: int,
)
    requires
        0 < n <= edges.len(),
        are_snapped(near, edges, n, kept),
    ensures
        kept.len() > 0,
        kept[0] == edges[0],
        kept.len() <= n,
        0 < k < kept.len() ==> near.ensures((kept[k], kept[k - 1]), false),
        0 <= k < kept.len() ==> edges.contains(kept[k]),
        !kept.contains(edges[n - 1]) ==> near.ensures((edges[n - 1], kept.last()), true),
    decreases n,
{
    let goes = kept.len() > 0 && near.ensures((edges[n - 1], kept.last()), true) && are_snapped(
        near,
        edges,
        n - 1,
        kept,
    );
    reveal_with_fuel(are_snapped, 2);
    if n == 1 {
        assert(kept.drop_last().len() == 0);
        assert(kept[0] == kept.last());
    } else if goes {
        lemma_edges_that_stay(near, edges, n - 1, kept, k);
    } else {
        let short = kept.drop_last();
        lemma_edges_that_stay(near, edges, n - 1, short, k);
        assert(kept[0] == short[0]);
        assert(kept[kept.len() - 1] == edges[n - 1]);
        if 0 <= k < short.len() {
            assert(short[k] == kept[k]);
        }
        if 0 < k < short.len() {
            assert(short[k - 1] == kept[k - 1]);
        }
    }
}

} // verus!
