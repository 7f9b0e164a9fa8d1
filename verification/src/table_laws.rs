//! What tables that rectangles draw hold: laws on grids and their cells.

use crate::numbers::order_of;
use crate::ordering::indices;
use crate::tables::{
    cell_text, cluster_tables, clustered, column_spans, covered_cells, covered_in_row, filled_cells,
    filled_in_row, filled_rows, first_set, found_tables, grid_spans, grid_table, is_blank_cell,
    is_column_filled, is_placed, joined_texts, last_set, lemma_cells_hold_their_texts, merged_spans,
    page_tables, placed_items, text_table, texts_in_cell, with_text, with_word, Cluster, GridItem,
    GridRect, Sheet, Stripes, TableContent,
};
use crate::text::{is_space, lemma_trimmed_is_final, lemma_trimmed_of_clean, trimmed, utf8_size};
use vstd::prelude::*;

verus! {

// ---------------------------------------------------------------------------------------------
// What is on a grid, in plain words
// ---------------------------------------------------------------------------------------------

/// Whether the first flag that is set is the one at a position.
pub open spec fn is_first_flag(flags: Seq<bool>, i: int) -> bool {
    0 <= i < flags.len() && flags[i] && forall|k: int| 0 <= k < i ==> !(#[trigger] flags[k])
}

/// Whether a text of a page lies in the cell of a row and a column.
pub open spec fn lies_in(item: GridItem, page: u32, row: int, col: int) -> bool {
    item.page == page && is_first_flag(item.in_rows@, row) && is_first_flag(item.in_cols@, col)
}

/// Whether a text that is not blank lies in a cell.
pub open spec fn is_written_on(items: Seq<GridItem>, page: u32, row: int, col: int) -> bool {
    exists|k: int|
        0 <= k < items.len() && lies_in(#[trigger] items[k], page, row, col) && trimmed(
            items[k].text@,
        ).len() > 0
}

/// Whether a rectangle reaches over a cell.
pub open spec fn has_rectangle(rects: Seq<GridRect>, row: int, col: int) -> bool {
    exists|k: int|
        0 <= k < rects.len() && (#[trigger] rects[k]).over_rows@[row] && rects[k].over_cols@[col]
}

/// Whether no rectangle reaches over two rows.
pub open spec fn are_flat(rects: Seq<GridRect>) -> bool {
    forall|k: int, a: int, b: int|
        0 <= k < rects.len() && 0 <= a < rects[k].over_rows@.len() && 0 <= b
            < rects[k].over_rows@.len() && #[trigger] rects[k].over_rows@[a]
            && #[trigger] rects[k].over_rows@[b] ==> a == b
}

proof fn lemma_first_flag(flags: Seq<bool>, from: int, i: int)
    requires
        0 <= from <= i,
        is_first_flag(flags, i),
    ensures
        first_set(flags, from) == Some(i),
    decreases i - from,
{
    if from < i {
        lemma_first_flag(flags, from + 1, i);
    }
}

proof fn lemma_first_set(flags: Seq<bool>, from: int)
    requires
        0 <= from,
        forall|k: int| 0 <= k < from && k < flags.len() ==> !(#[trigger] flags[k]),
    ensures
        first_set(flags, from) matches Some(i) ==> is_first_flag(flags, i),
    decreases flags.len() - from,
{
    if from < flags.len() && !flags[from] {
        lemma_first_set(flags, from + 1);
    }
}

proof fn lemma_last_set(flags: Seq<bool>, n: int)
    requires
        n <= flags.len(),
    ensures
        last_set(flags, n) matches Some(i) ==> 0 <= i < n && flags[i],
    decreases n,
{
    if n > 0 && !flags[n - 1] {
        lemma_last_set(flags, n - 1);
    }
}

/// A text falls into the cell of the first row and the first column that it lies in, on its own
/// page only.
pub proof fn lemma_texts_fall_into_their_cells(item: GridItem, page: u32, row: int, col: int)
    ensures
        item.cell(page) == Some((row, col)) <==> lies_in(item, page, row, col),
{
    if lies_in(item, page, row, col) {
        lemma_first_flag(item.in_rows@, 0, row);
        lemma_first_flag(item.in_cols@, 0, col);
    }
    if item.cell(page) == Some((row, col)) {
        lemma_first_set(item.in_rows@, 0);
        lemma_first_set(item.in_cols@, 0);
    }
}

// ---------------------------------------------------------------------------------------------
// Cells
// ---------------------------------------------------------------------------------------------

/// Whether a text neither starts nor ends with white space.
spec fn is_clean(s: Seq<char>) -> bool {
    s.len() > 0 ==> !is_space(s.first()) && !is_space(s.last())
}

proof fn lemma_with_word(text: Seq<char>, word: Seq<char>)
    requires
        is_clean(text),
    ensures
        is_clean(with_word(text, word)),
        with_word(text, word).len() >= text.len(),
        trimmed(word).len() > 0 ==> with_word(text, word).len() > 0,
{
    lemma_trimmed_is_final(word);
    let t = trimmed(word);
    if t.len() > 0 && text.len() > 0 {
        let all = text.push(' ') + t;
        assert(all.first() == text.first());
        assert(all.last() == t.last());
    }
}

proof fn lemma_joined_texts(texts: Seq<GridItem>)
    ensures
        is_clean(joined_texts(texts)),
        (exists|k: int| 0 <= k < texts.len() && trimmed((#[trigger] texts[k]).text@).len() > 0)
            ==> joined_texts(texts).len() > 0,
    decreases texts.len(),
{
    if texts.len() > 0 {
        let rest = texts.drop_last();
        lemma_joined_texts(rest);
        lemma_with_word(joined_texts(rest), texts.last().text@);
        if exists|k: int| 0 <= k < texts.len() && trimmed((#[trigger] texts[k]).text@).len() > 0 {
            let k = choose|k: int|
                0 <= k < texts.len() && trimmed((#[trigger] texts[k]).text@).len() > 0;
            if k < rest.len() {
                assert(rest[k] == texts[k]);
            }
        }
    }
}

/// A cell in which a text lies that is not blank is not blank.
pub proof fn lemma_written_cells_are_not_blank(
    items: Seq<GridItem>,
    page: u32,
    row: int,
    col: int,
)
    requires
        is_written_on(items, page, row, col),
    ensures
        !is_blank_cell(cell_text(items, page, row, col)),
{
    let k = choose|k: int|
        0 <= k < items.len() && lies_in(#[trigger] items[k], page, row, col) && trimmed(
            items[k].text@,
        ).len() > 0;
    lemma_texts_fall_into_their_cells(items[k], page, row, col);
    lemma_cells_hold_their_texts(items, page, items.len() as int, k, row, col);
    let texts = texts_in_cell(items, page, items.len() as int, row, col);
    let j = choose|j: int| 0 <= j < texts.len() && texts[j] == items[k];
    assert(trimmed(texts[j].text@).len() > 0);
    lemma_joined_texts(texts);
    lemma_trimmed_of_clean(joined_texts(texts));
}

/// A cell in which no text lies is empty; one in which a single text lies holds this text, without
/// the white space around it.
pub proof fn lemma_cells_of_one_text(
    items: Seq<GridItem>,
    page: u32,
    row: int,
    col: int,
    n: int,
    only: Option<int>,
)
    requires
        0 <= n <= items.len(),
        only matches Some(k) ==> 0 <= k < items.len(),
        forall|k: int|
            0 <= k < items.len() ==> (lies_in(#[trigger] items[k], page, row, col) <==> only == Some(
                k,
            )),
    ensures
        n == items.len() ==> cell_text(items, page, row, col) == match only {
            Some(k) => trimmed(items[k].text@),
            None => seq![],
        },
        texts_in_cell(items, page, n, row, col) == match only {
            Some(k) => if k < n {
                seq![items[k]]
            } else {
                seq![]
            },
            None => seq![],
        },
    decreases n,
{
    if n > 0 {
        lemma_cells_of_one_text(items, page, row, col, n - 1, only);
        lemma_texts_fall_into_their_cells(items[n - 1], page, row, col);
        if only == Some(n - 1) {
            assert(with_text(seq![], items[n - 1]) =~= seq![items[n - 1]]);
        }
    }
    if n == items.len() {
        reveal_with_fuel(joined_texts, 2);
        match only {
            Some(k) => {
                let one = seq![items[k]];
                assert(one.drop_last() =~= seq![]);
            },
            None => {},
        }
    }
}

/// Two texts in a cell stand one behind the other with a space between them: the higher one first,
/// and at the same height the left one.
pub proof fn lemma_cells_of_two_texts(
    items: Seq<GridItem>,
    page: u32,
    row: int,
    col: int,
    a: int,
    b: int,
)
    requires
        0 <= a < items.len(),
        0 <= b < items.len(),
        a != b,
        forall|k: int|
            0 <= k < items.len() ==> (lies_in(#[trigger] items[k], page, row, col) <==> k == a || k
                == b),
        order_of(items[b].y) < order_of(items[a].y) || (order_of(items[b].y) == order_of(items[a].y)
            && order_of(items[a].x) < order_of(items[b].x)),
        trimmed(items[a].text@).len() > 0,
        trimmed(items[b].text@).len() > 0,
    ensures
        cell_text(items, page, row, col) == trimmed(items[a].text@).push(' ') + trimmed(
            items[b].text@,
        ),
{
    lemma_two_texts(items, page, row, col, items.len() as int, a, b);
    reveal_with_fuel(joined_texts, 3);
    let both = seq![items[a], items[b]];
    assert(both.drop_last() =~= seq![items[a]]);
    assert(both.drop_last().drop_last() =~= seq![]);
}

proof fn lemma_two_texts(
    items: Seq<GridItem>,
    page: u32,
    row: int,
    col: int,
    n: int,
    a: int,
    b: int,
)
    requires
        0 <= n <= items.len(),
        0 <= a < items.len(),
        0 <= b < items.len(),
        a != b,
        forall|k: int|
            0 <= k < items.len() ==> (lies_in(#[trigger] items[k], page, row, col) <==> k == a || k
                == b),
        order_of(items[b].y) < order_of(items[a].y) || (order_of(items[b].y) == order_of(items[a].y)
            && order_of(items[a].x) < order_of(items[b].x)),
    ensures
        texts_in_cell(items, page, n, row, col) == if a < n && b < n {
            seq![items[a], items[b]]
        } else if a < n {
            seq![items[a]]
        } else if b < n {
            seq![items[b]]
        } else {
            seq![]
        },
    decreases n,
{
    if n > 0 {
        lemma_two_texts(items, page, row, col, n - 1, a, b);
        let item = items[n - 1];
        lemma_texts_fall_into_their_cells(item, page, row, col);
        reveal_with_fuel(with_text, 3);
        let before = texts_in_cell(items, page, n - 1, row, col);
        if n - 1 == a || n - 1 == b {
            if before.len() == 1 {
                assert(before.drop_last() =~= seq![]);
                assert(with_text(before, item) =~= seq![items[a], items[b]]);
            } else {
                assert(with_text(before, item) =~= seq![item]);
            }
        }
    }
}

/// The texts that a grid takes are exactly those of its page that lie in a row and a column.
pub proof fn lemma_grids_take_their_texts(items: Seq<GridItem>, page: u32, k: usize)
    requires
        k < items.len(),
    ensures
        placed_items(items, page, items.len()).contains(k) <==> exists|row: int, col: int|
            lies_in(items[k as int], page, row, col),
{
    broadcast use vstd::seq_lib::group_filter_ensures;

    let all = indices(items.len());
    assert(all[k as int] == k);
    let item = items[k as int];
    if placed_items(items, page, items.len()).contains(k) {
        let i = placed_items(items, page, items.len()).index_of(k);
        assert(is_placed(items, page)(all.filter(is_placed(items, page))[i]));
        let cell = item.cell(page)->0;
        lemma_texts_fall_into_their_cells(item, page, cell.0, cell.1);
        assert(lies_in(item, page, cell.0, cell.1));
    }
    if exists|row: int, col: int| lies_in(item, page, row, col) {
        let (row, col) = choose|row: int, col: int| lies_in(item, page, row, col);
        lemma_texts_fall_into_their_cells(item, page, row, col);
        assert(is_placed(items, page)(k));
        assert(all.filter(is_placed(items, page)).contains(all[k as int]));
    }
}

// ---------------------------------------------------------------------------------------------
// Grids
// ---------------------------------------------------------------------------------------------

proof fn lemma_row_covered(rects: Seq<GridRect>, row: int, n: int)
    requires
        0 <= n,
        forall|c: int| 0 <= c < n ==> #[trigger] has_rectangle(rects, row, c),
    ensures
        covered_in_row(rects, row, n) == n,
    decreases n,
{
    if n > 0 {
        lemma_row_covered(rects, row, n - 1);
        assert(has_rectangle(rects, row, n - 1));
    }
}

proof fn lemma_all_covered(rects: Seq<GridRect>, cols: int, n: int)
    requires
        0 <= n,
        0 <= cols,
        forall|r: int, c: int|
            0 <= r < n && 0 <= c < cols ==> #[trigger] has_rectangle(rects, r, c),
    ensures
        covered_cells(rects, cols, n) == n * cols,
    decreases n,
{
    if n > 0 {
        lemma_all_covered(rects, cols, n - 1);
        lemma_row_covered(rects, n - 1, cols);
        assert((n - 1) * cols + cols == n * cols) by (nonlinear_arith);
    } else {
        assert(n * cols == 0) by (nonlinear_arith)
            requires
                n == 0,
        ;
    }
}

proof fn lemma_row_filled(row: Seq<Seq<char>>)
    requires
        forall|c: int| 0 <= c < row.len() ==> !is_blank_cell(#[trigger] row[c]),
    ensures
        filled_in_row(row) == row.len(),
    decreases row.len(),
{
    if row.len() > 0 {
        lemma_row_filled(row.drop_last());
    }
}

proof fn lemma_all_filled(cells: Seq<Seq<Seq<char>>>, cols: nat, n: int)
    requires
        0 <= n <= cells.len(),
        cols > 0,
        forall|r: int| 0 <= r < n ==> (#[trigger] cells[r]).len() == cols,
        forall|r: int, c: int|
            0 <= r < n && 0 <= c < cols ==> !is_blank_cell(#[trigger] cells[r][c]),
    ensures
        filled_cells(cells, n) == n * cols,
        filled_rows(cells, n) == n,
    decreases n,
{
    if n > 0 {
        lemma_all_filled(cells, cols, n - 1);
        lemma_row_filled(cells[n - 1]);
        assert((n - 1) * cols + cols == n * cols) by (nonlinear_arith);
    } else {
        assert(n * cols == 0) by (nonlinear_arith)
            requires
                n == 0,
        ;
    }
}

proof fn lemma_flat_rects_span_nothing(rects: Seq<GridRect>, col: int, n: int)
    requires
        are_flat(rects),
        n <= rects.len(),
    ensures
        column_spans(rects, col, n) == Seq::<(usize, usize, usize)>::empty(),
    decreases n,
{
    if n > 0 {
        lemma_flat_rects_span_nothing(rects, col, n - 1);
        let flags = rects[n - 1].over_rows@;
        lemma_first_set(flags, 0);
        lemma_last_set(flags, flags.len() as int);
    }
}

proof fn lemma_flat_grids_span_nothing(rects: Seq<GridRect>, cols: int)
    requires
        are_flat(rects),
    ensures
        grid_spans(rects, cols) == Seq::<(usize, usize, usize)>::empty(),
    decreases cols,
{
    if cols > 0 {
        lemma_flat_grids_span_nothing(rects, cols - 1);
        lemma_flat_rects_span_nothing(rects, cols - 1, rects.len() as int);
        assert(grid_spans(rects, cols) =~= seq![]);
    }
}

/// Every full grid is a table, however many rows it has: where it has two to 25 columns and at least
/// three rows, and each cell is drawn by a rectangle of one row and holds a text that is not blank,
/// it gives a table with its rows and columns, all its texts, and the text of each cell. By the
/// strict rule the texts of the cells have to be short.
pub proof fn lemma_full_grids_are_tables(sheet: Sheet, page: u32, strict: bool)
    requires
        sheet.wf(),
        2 <= sheet.columns@.len() <= 25,
        sheet.rows@.len() >= 3,
        are_flat(sheet.rects@),
        forall|r: int, c: int|
            0 <= r < sheet.rows@.len() && 0 <= c < sheet.columns@.len() ==> #[trigger]
                has_rectangle(sheet.rects@, r, c),
        forall|r: int, c: int|
            0 <= r < sheet.rows@.len() && 0 <= c < sheet.columns@.len() ==> #[trigger]
                is_written_on(sheet.items@, page, r, c),
        strict ==> forall|r: int, c: int|
            0 <= r < sheet.rows@.len() && 0 <= c < sheet.columns@.len() ==> utf8_size(
                #[trigger] cell_text(sheet.items@, page, r, c),
            ) <= 200,
    ensures
        grid_table(sheet, page, strict) matches Some(table) && table.rows == sheet.rows@
            && table.columns == sheet.columns@ && table.cells.len() == sheet.rows@.len() && (forall|
            r: int,
            c: int,
        |
            0 <= r < sheet.rows@.len() && 0 <= c < sheet.columns@.len() ==> #[trigger]
                table.cells[r][c] == cell_text(sheet.items@, page, r, c)) && (forall|r: int|
            0 <= r < sheet.rows@.len() ==> (#[trigger] table.cells[r]).len()
                == sheet.columns@.len()) && (forall|k: usize|
            k < sheet.items@.len() ==> (#[trigger] table.items.contains(k) <==> exists|
                row: int,
                col: int,
            |
                lies_in(sheet.items@[k as int], page, row, col))),
{
    let rows = sheet.rows@.len();
    let cols = sheet.columns@.len();
    let cells = sheet.filled(page);
    lemma_flat_grids_span_nothing(sheet.rects@, cols as int);
    lemma_all_covered(sheet.rects@, cols as int, rows as int);
    assert forall|r: int, c: int| 0 <= r < rows && 0 <= c < cols implies !is_blank_cell(
        #[trigger] cells[r][c],
    ) by {
        assert(is_written_on(sheet.items@, page, r, c));
        lemma_written_cells_are_not_blank(sheet.items@, page, r, c);
    }
    lemma_all_filled(cells, cols, rows as int);
    assert forall|c: int| 0 <= c < cols implies #[trigger] is_column_filled(cells, c) by {
        assert(!is_blank_cell(cells[0][c]));
    }
    assert(rows * cols <= usize::MAX);
    assert(merged_spans(cells, seq![], 0) == cells);
    assert(is_written_on(sheet.items@, page, 0, 0));
    let k = choose|k: int|
        0 <= k < sheet.items@.len() && lies_in(#[trigger] sheet.items@[k], page, 0, 0) && trimmed(
            sheet.items@[k].text@,
        ).len() > 0;
    lemma_items_fit(sheet.items);
    lemma_grids_take_their_texts(sheet.items@, page, k as usize);
    assert(lies_in(sheet.items@[k as usize as int], page, 0, 0));
    assert(placed_items(sheet.items@, page, sheet.items@.len()).contains(k as usize));
    assert forall|j: usize| j < sheet.items@.len() implies (#[trigger] placed_items(
        sheet.items@,
        page,
        sheet.items@.len(),
    ).contains(j) <==> exists|row: int, col: int|
        lies_in(sheet.items@[j as int], page, row, col)) by {
        lemma_grids_take_their_texts(sheet.items@, page, j);
    }
    if strict {
        assert forall|r: int, c: int|
            0 <= r < cells.len() && 0 <= c < cells[r].len() implies utf8_size(
            #[trigger] cells[r][c],
        ) <= 200 by {
            assert(cells[r][c] == cell_text(sheet.items@, page, r, c));
        }
    }
    assert(10 * (rows * cols) >= 3 * (rows * cols));
    assert(rows as usize / 2 <= rows);
    assert((rows * cols) * 100 >= 40 * (rows * cols));
}

/// The numbers of a list fit.
proof fn lemma_items_fit(items: Vec<GridItem>)
    ensures
        items@.len() <= usize::MAX,
{
    assert(items.len() == items@.len());
}

/// Whether a column holds more than white space.
pub open spec fn has_words(cells: Seq<Seq<Seq<char>>>, col: int) -> bool {
    exists|r: int| 0 <= r < cells.len() && trimmed(#[trigger] cells[r][col]).len() > 0
}

/// A table of a grid has the rows and the columns of the grid and takes all texts that lie on it. The
/// grid has two to 25 columns and at least three rows, and no column of the table is blank.
pub proof fn lemma_tables_are_their_grids(sheet: Sheet, page: u32, strict: bool)
    ensures
        grid_table(sheet, page, strict) matches Some(table) ==> {
            &&& 2 <= sheet.columns@.len() <= 25
            &&& sheet.rows@.len() >= 3
            &&& table.rows == sheet.rows@
            &&& table.columns == sheet.columns@
            &&& forall|c: int|
                0 <= c < sheet.columns@.len() ==> #[trigger] has_words(table.cells, c)
            &&& exists|k: int|
                0 <= k < sheet.items@.len() && #[trigger] sheet.items@[k].page == page
        },
{
    match grid_table(sheet, page, strict) {
        Some(table) => {
            assert forall|c: int| 0 <= c < sheet.columns@.len() implies #[trigger] has_words(
                table.cells,
                c,
            ) by {
                assert(is_column_filled(table.cells, c));
            }
            broadcast use vstd::seq_lib::group_filter_ensures;

            let all = indices(sheet.items@.len());
            let wanted = is_placed(sheet.items@, page);
            let first = all.filter(wanted)[0];
            assert(wanted(first));
            crate::layout::lemma_filter_member(all, wanted, 0);
            assert(sheet.items@[first as int].page == page);
        },
        None => {},
    }
}

/// A grid whose columns come from the text is a table where it is full, has at least two columns and
/// at least three rows, however many of either it has.
pub proof fn lemma_full_text_grids_are_tables(sheet: Sheet, page: u32)
    requires
        sheet.wf(),
        sheet.columns@.len() >= 2,
        sheet.rows@.len() >= 3,
        forall|r: int, c: int|
            0 <= r < sheet.rows@.len() && 0 <= c < sheet.columns@.len() ==> #[trigger]
                is_written_on(sheet.items@, page, r, c),
    ensures
        text_table(sheet, page) matches Some(table) && table.rows == sheet.rows@ && table.columns
            == sheet.columns@ && table.cells.len() == sheet.rows@.len() && (forall|r: int, c: int|
            0 <= r < sheet.rows@.len() && 0 <= c < sheet.columns@.len() ==> #[trigger]
                table.cells[r][c] == cell_text(sheet.items@, page, r, c)),
{
    let rows = sheet.rows@.len();
    let cols = sheet.columns@.len();
    let cells = sheet.filled(page);
    assert forall|r: int, c: int| 0 <= r < rows && 0 <= c < cols implies !is_blank_cell(
        #[trigger] cells[r][c],
    ) by {
        assert(is_written_on(sheet.items@, page, r, c));
        lemma_written_cells_are_not_blank(sheet.items@, page, r, c);
    }
    lemma_all_filled(cells, cols, rows as int);
    assert forall|c: int| 0 <= c < cols implies #[trigger] is_column_filled(cells, c) by {
        assert(!is_blank_cell(cells[0][c]));
    }
    assert(is_written_on(sheet.items@, page, 0, 0));
    let k = choose|k: int|
        0 <= k < sheet.items@.len() && lies_in(#[trigger] sheet.items@[k], page, 0, 0) && trimmed(
            sheet.items@[k].text@,
        ).len() > 0;
    lemma_items_fit(sheet.items);
    lemma_grids_take_their_texts(sheet.items@, page, k as usize);
    assert(lies_in(sheet.items@[k as usize as int], page, 0, 0));
    assert(placed_items(sheet.items@, page, sheet.items@.len()).contains(k as usize));
    assert((rows * cols) * 100 >= 40 * (rows * cols));
}

// ---------------------------------------------------------------------------------------------
// Pages
// ---------------------------------------------------------------------------------------------

/// No table is lost: each table of a cluster is among those of the page, and stands in the order of
/// the clusters. A page with fewer than six rectangles has none.
pub proof fn lemma_clusters_keep_their_tables(
    rects: usize,
    clusters: Seq<Cluster>,
    merged: Sheet,
    all: Stripes,
    page: u32,
    k: int,
)
    requires
        0 <= k < clusters.len(),
        clusters.len() < 3,
    ensures
        rects < 6 ==> page_tables(rects, clusters, merged, all, page).len() == 0,
        rects >= 6 ==> (clusters[k].table(page) matches Some(t) ==> page_tables(
            rects,
            clusters,
            merged,
            all,
            page,
        ).contains(t)),
        rects >= 6 && (forall|j: int|
            0 <= j < clusters.len() ==> (#[trigger] clusters[j]).table(page) is Some)
            ==> page_tables(rects, clusters, merged, all, page) == clusters.map_values(
            |c: Cluster| c.table(page)->0,
        ),
{
    lemma_cluster_tables(clusters, page, clusters.len() as int, k);
    let found = cluster_tables(clusters, page, clusters.len() as int);
    if forall|j: int| 0 <= j < clusters.len() ==> (#[trigger] clusters[j]).table(page) is Some {
        lemma_all_cluster_tables(clusters, page, clusters.len() as int);
        assert(clusters.take(clusters.len() as int) =~= clusters);
    }
}

proof fn lemma_cluster_tables(clusters: Seq<Cluster>, page: u32, n: int, k: int)
    requires
        0 <= n <= clusters.len(),
        0 <= k,
    ensures
        k < n ==> (clusters[k].table(page) matches Some(t) ==> cluster_tables(
            clusters,
            page,
            n,
        ).contains(t)),
    decreases n,
{
    if n > 0 && k < n {
        lemma_cluster_tables(clusters, page, n - 1, k);
        let before = cluster_tables(clusters, page, n - 1);
        let now = cluster_tables(clusters, page, n);
        match clusters[k].table(page) {
            Some(t) => {
                if k < n - 1 {
                    let i = before.index_of(t);
                    assert(now[i] == t);
                } else {
                    assert(now[before.len() as int] == t);
                }
            },
            None => {},
        }
    }
}

proof fn lemma_all_cluster_tables(clusters: Seq<Cluster>, page: u32, n: int)
    requires
        0 <= n <= clusters.len(),
        forall|j: int| 0 <= j < clusters.len() ==> (#[trigger] clusters[j]).table(page) is Some,
    ensures
        cluster_tables(clusters, page, n) == clusters.take(n).map_values(
            |c: Cluster| c.table(page)->0,
        ),
    decreases n,
{
    if n > 0 {
        lemma_all_cluster_tables(clusters, page, n - 1);
        assert(clusters[n - 1].table(page) is Some);
    }
    assert(cluster_tables(clusters, page, n) =~= clusters.take(n).map_values(
        |c: Cluster| c.table(page)->0,
    ));
}

/// A cluster has the table of its grid, wherever this is one; else, where its rectangles are the
/// stripes of rows, that of its stripes.
pub proof fn lemma_tables_of_a_cluster(cluster: Cluster, page: u32)
    ensures
        grid_table(cluster.whole, page, false) matches Some(t) ==> cluster.table(page) == Some(t),
        cluster.table(page) matches Some(t) ==> grid_table(cluster.whole, page, false) == Some(t)
            || grid_table(cluster.bare, page, true) == Some(t) || (cluster.stripes.are_stripes
            && text_table(cluster.stripes.sheet, page) == Some(t)),
        grid_table(cluster.whole, page, false) is None && grid_table(cluster.bare, page, true) is None
            && cluster.stripes.are_stripes ==> cluster.table(page) == text_table(
            cluster.stripes.sheet,
            page,
        ),
        ({
            let has_background = exists|k: int|
                0 <= k < cluster.bare.rects@.len() && (
                #[trigger] cluster.bare.rects@[k]).is_background;
            grid_table(cluster.whole, page, false) is None && has_background
                && cluster.bare.rows@.len() > 10 && grid_table(cluster.bare, page, true) is Some
                ==> cluster.table(page) == grid_table(cluster.bare, page, true)
        }),
{
}

/// Where no cluster was found, at least 15 rectangles that are stripes give the table of their rows,
/// if it has at least ten rows. From three clusters with 50 rectangles on, the table of all of them
/// takes the place of narrow ones.
pub proof fn lemma_stripes_and_merged_tables(
    rects: usize,
    clusters: Seq<Cluster>,
    merged: Sheet,
    all: Stripes,
    page: u32,
    table: TableContent,
)
    ensures
        rects >= 15 && clusters.len() == 0 && all.are_stripes && text_table(all.sheet, page) == Some(
            table,
        ) && table.rows.len() >= 10 ==> page_tables(rects, clusters, merged, all, page) == seq![
            table,
        ],
        rects >= 6 && clusters.len() >= 3 && clustered(clusters, clusters.len() as int) >= 50
            && text_table(merged, page) == Some(table) && (forall|k: int|
            0 <= k < clusters.len() ==> (#[trigger] clusters[k]).table(page) is None)
            ==> page_tables(rects, clusters, merged, all, page) == seq![table],
{
    if forall|k: int| 0 <= k < clusters.len() ==> (#[trigger] clusters[k]).table(page) is None {
        lemma_no_cluster_tables(clusters, page, clusters.len() as int);
    }
    if clusters.len() == 0 {
        assert(found_tables(clusters, merged, page).len() == 0);
    }
}

proof fn lemma_no_cluster_tables(clusters: Seq<Cluster>, page: u32, n: int)
    requires
        0 <= n <= clusters.len(),
        forall|k: int| 0 <= k < clusters.len() ==> (#[trigger] clusters[k]).table(page) is None,
    ensures
        cluster_tables(clusters, page, n) == Seq::<TableContent>::empty(),
    decreases n,
{
    if n > 0 {
        lemma_no_cluster_tables(clusters, page, n - 1);
        assert(clusters[n - 1].table(page) is None);
    }
}

} // verus!
