//! Tables: clusters of rectangles, grids of cells, and the rules by which a grid is a table.
//!
//! Where rectangles and texts lie on the page is measured elsewhere. This module works with what
//! the measurements amount to: which rectangles overlap, which cell a text falls into, and which
//! rows a rectangle spans.

use crate::numbers::{order_key, order_of};
use crate::ordering::{
    count_up, find_median, get_value_keys, have_keys, indices, lemma_sorted_by_keys, median,
    sort_by_keys, sorted_by_keys, value_keys, yes_count,
};
use crate::text::{
    chars_of, is_space, lemma_trimmed_is_final, lemma_trimmed_of_clean, string_of, trim, trimmed,
    trimmed_start, utf8_size, utf8_width_of,
};
use crate::union_find::{are_pairs_below, joined_pairs, lemma_joined_size, UnionFind};
use vstd::prelude::*;

verus! {

// ---------------------------------------------------------------------------------------------
// Clusters
// ---------------------------------------------------------------------------------------------

/// Whether the representative of a number is `r`.
pub open spec fn is_member(rep: Seq<usize>, r: usize) -> spec_fn(usize) -> bool {
    |k: usize| rep[k as int] == r
}

/// The numbers below `n` whose representative is `r`, in ascending order.
pub open spec fn members(rep: Seq<usize>, n: nat, r: usize) -> Seq<usize> {
    indices(n).filter(is_member(rep, r))
}

/// The sets with at least `min_size` members, by their representatives.
pub open spec fn large_sets(rep: Seq<usize>, min_size: usize) -> Seq<Seq<usize>> {
    indices(rep.len()).filter(
        |r: usize|
            members(rep, rep.len(), r).len() > 0 && members(rep, rep.len(), r).len() >= min_size,
    ).map_values(|r: usize| members(rep, rep.len(), r))
}

/// Lists of numbers as they are held, as plain contents.
pub open spec fn list_contents(lists: Seq<Vec<usize>>) -> Seq<Seq<usize>> {
    lists.map_values(|l: Vec<usize>| l@)
}

/// The numbers whose representative is `r`.
pub(crate) fn collect_members(rep: &Vec<usize>, r: usize) -> (out: Vec<usize>)
    ensures
        out@ == members(rep@, rep@.len(), r),
        forall|k: int| 0 <= k < out@.len() ==> (#[trigger] out@[k]) < rep@.len(),
{
    let ghost wanted = is_member(rep@, r);
    let n: usize = rep.len();
    let mut out: Vec<usize> = Vec::new();
    let mut i: usize = 0;
    assert(indices(0).filter(wanted) =~= seq![]) by {
        reveal(Seq::filter);
    }
    while i < n
        invariant
            i <= n == rep@.len(),
            wanted == is_member(rep@, r),
            out@ == indices(i as nat).filter(wanted),
            forall|k: int| 0 <= k < out@.len() ==> (#[trigger] out@[k]) < n,
        decreases n - i,
    {
        assert(indices((i + 1) as nat) =~= indices(i as nat).push(i));
        assert(indices((i + 1) as nat).drop_last() =~= indices(i as nat));
        reveal(Seq::filter);
        if rep[i] == r {
            out.push(i);
        }
        i = i + 1;
    }
    out
}

/// Puts rectangles that overlap into the same cluster, directly or by way of others, and returns
/// the clusters with at least `min_size` rectangles. `n` is the number of rectangles; each pair
/// that overlaps is listed.
pub fn cluster_rects(n: usize, overlaps: &Vec<(usize, usize)>, min_size: usize) -> (r: Vec<
    Vec<usize>,
>)
    requires
        are_pairs_below(overlaps@, n as nat),
    ensures
        list_contents(r@) == large_sets(
            joined_pairs(n as nat, overlaps@, overlaps@.len() as int).rep,
            min_size,
        ),
{
    let mut sets = UnionFind::new(n);
    let mut k: usize = 0;
    while k < overlaps.len()
        invariant
            k <= overlaps@.len(),
            are_pairs_below(overlaps@, n as nat),
            sets.wf(),
            sets.size() == n,
            sets.partition() == joined_pairs(n as nat, overlaps@, k as int),
        decreases overlaps@.len() - k,
    {
        let (a, b) = overlaps[k];
        assert(overlaps@[k as int].0 < n && overlaps@[k as int].1 < n);
        sets.union(a, b);
        k = k + 1;
    }
    let ghost all = sets.partition();
    proof {
        lemma_joined_size(n as nat, overlaps@, k as int);
    }
    let mut rep: Vec<usize> = Vec::new();
    let mut i: usize = 0;
    while i < n
        invariant
            i <= n,
            sets.wf(),
            sets.size() == n,
            sets.partition() == all,
            all.rep.len() == n,
            rep@ == all.rep.take(i as int),
        decreases n - i,
    {
        rep.push(sets.find(i));
        i = i + 1;
        assert(rep@ =~= all.rep.take(i as int));
    }
    assert(rep@ =~= all.rep);
    let ghost wanted = |r: usize|
        members(rep@, rep@.len(), r).len() > 0 && members(rep@, rep@.len(), r).len() >= min_size;
    let ghost listed = |r: usize| members(rep@, rep@.len(), r);
    let mut out: Vec<Vec<usize>> = Vec::new();
    i = 0;
    assert(indices(0).filter(wanted).map_values(listed) =~= seq![]) by {
        reveal(Seq::filter);
    }
    assert(list_contents(out@) =~= seq![]);
    while i < n
        invariant
            i <= n == rep@.len(),
            wanted == (|r: usize|
                members(rep@, rep@.len(), r).len() > 0 && members(rep@, rep@.len(), r).len()
                    >= min_size),
            listed == (|r: usize| members(rep@, rep@.len(), r)),
            list_contents(out@) == indices(i as nat).filter(wanted).map_values(listed),
        decreases n - i,
    {
        let ghost before = list_contents(out@);
        let ghost chosen = indices(i as nat).filter(wanted);
        assert(indices((i + 1) as nat) =~= indices(i as nat).push(i));
        assert(indices((i + 1) as nat).drop_last() =~= indices(i as nat));
        reveal(Seq::filter);
        let group = collect_members(&rep, i);
        if group.len() > 0 && group.len() >= min_size {
            let ghost added = group@;
            out.push(group);
            assert(list_contents(out@) =~= before.push(added));
            assert(indices((i + 1) as nat).filter(wanted) =~= chosen.push(i));
            assert(chosen.push(i).map_values(listed) =~= chosen.map_values(listed).push(listed(i)));
        }
        i = i + 1;
    }
    out
}

// ---------------------------------------------------------------------------------------------
// Cells
// ---------------------------------------------------------------------------------------------

/// The first position from `i` on at which a flag is set.
pub open spec fn first_set(flags: Seq<bool>, i: int) -> Option<int>
    decreases flags.len() - i,
{
    if i >= flags.len() {
        None
    } else if flags[i] {
        Some(i)
    } else {
        first_set(flags, i + 1)
    }
}

/// The last of the first `n` positions at which a flag is set.
pub open spec fn last_set(flags: Seq<bool>, n: int) -> Option<int>
    decreases n,
{
    if n <= 0 {
        None
    } else if flags[n - 1] {
        Some(n - 1)
    } else {
        last_set(flags, n - 1)
    }
}

/// The first position at which a flag is set.
fn find_first(flags: &Vec<bool>) -> (r: Option<usize>)
    ensures
        r is Some == first_set(flags@, 0) is Some,
        r matches Some(i) ==> i < flags@.len() && first_set(flags@, 0) == Some(i as int),
{
    let mut i: usize = 0;
    while i < flags.len()
        invariant
            i <= flags@.len(),
            first_set(flags@, 0) == first_set(flags@, i as int),
        decreases flags@.len() - i,
    {
        if flags[i] {
            return Some(i);
        }
        i = i + 1;
    }
    None
}

/// The last position at which a flag is set.
fn find_last(flags: &Vec<bool>) -> (r: Option<usize>)
    ensures
        r is Some == last_set(flags@, flags@.len() as int) is Some,
        r matches Some(i) ==> i < flags@.len() && last_set(flags@, flags@.len() as int) == Some(
            i as int,
        ),
{
    let mut n: usize = flags.len();
    while n > 0
        invariant
            n <= flags@.len(),
            last_set(flags@, flags@.len() as int) == last_set(flags@, n as int),
        decreases n,
    {
        if flags[n - 1] {
            return Some((n - 1) as usize);
        }
        n = n - 1;
    }
    None
}

/// A text as it lies on a grid. The coordinates are real numbers, given by their bits; `y` grows
/// upwards. `in_cols` and `in_rows` say of each column and of each row of the grid whether the text
/// lies in it; next to an edge it may lie in two.
#[derive(Debug, Clone)]
pub struct GridItem {
    pub page: u32,
    pub x: u32,
    pub y: u32,
    pub text: String,
    pub in_cols: Vec<bool>,
    pub in_rows: Vec<bool>,
}

impl GridItem {
    /// The row and the column of the cell that a text of a page falls into: of those that it lies
    /// in, the first.
    pub open spec fn cell(self, page: u32) -> Option<(int, int)> {
        match (first_set(self.in_rows@, 0), first_set(self.in_cols@, 0)) {
            (Some(r), Some(c)) => if self.page == page {
                Some((r, c))
            } else {
                None
            },
            _ => None,
        }
    }

    /// The row and the column of the cell that a text of a page falls into.
    pub fn find_cell(&self, page: u32) -> (r: Option<(usize, usize)>)
        ensures
            r is Some == self.cell(page) is Some,
            r matches Some(c) ==> self.cell(page) == Some((c.0 as int, c.1 as int)),
    {
        if self.page != page {
            return None;
        }
        match (find_first(&self.in_rows), find_first(&self.in_cols)) {
            (Some(r), Some(c)) => Some((r, c)),
            _ => None,
        }
    }
}

/// Whether a text is read before another in the same cell: it stands higher, or at the same height
/// further left.
pub open spec fn is_read_before(a: GridItem, b: GridItem) -> bool {
    order_of(b.y) < order_of(a.y) || (order_of(b.y) == order_of(a.y) && order_of(a.x) < order_of(
        b.x,
    ))
}

/// A row of texts in reading order with one more, behind those with the same position.
pub open spec fn with_text(texts: Seq<GridItem>, text: GridItem) -> Seq<GridItem>
    decreases texts.len(),
{
    if texts.len() == 0 || !is_read_before(text, texts.last()) {
        texts.push(text)
    } else {
        with_text(texts.drop_last(), text).push(texts.last())
    }
}

/// Those of the first `n` texts that fall into a cell of a page, in reading order.
pub open spec fn texts_in_cell(
    items: Seq<GridItem>,
    page: u32,
    n: int,
    row: int,
    col: int,
) -> Seq<GridItem>
    decreases n,
{
    if n <= 0 {
        seq![]
    } else {
        let before = texts_in_cell(items, page, n - 1, row, col);
        if items[n - 1].cell(page) == Some((row, col)) {
            with_text(before, items[n - 1])
        } else {
            before
        }
    }
}

/// A text with another behind it, a space between them. A blank text adds nothing.
pub open spec fn with_word(text: Seq<char>, word: Seq<char>) -> Seq<char> {
    let t = trimmed(word);
    if t.len() == 0 {
        text
    } else if text.len() == 0 {
        t
    } else {
        text.push(' ') + t
    }
}

/// The texts of a row, one behind the other.
pub open spec fn joined_texts(texts: Seq<GridItem>) -> Seq<char>
    decreases texts.len(),
{
    if texts.len() == 0 {
        seq![]
    } else {
        with_word(joined_texts(texts.drop_last()), texts.last().text@)
    }
}

/// The text of a cell.
pub open spec fn cell_text(items: Seq<GridItem>, page: u32, row: int, col: int) -> Seq<char> {
    joined_texts(texts_in_cell(items, page, items.len() as int, row, col))
}

/// Puts a word behind a text, a space between them.
fn push_word(text: &mut Vec<char>, word: &[char])
    ensures
        final(text)@ == with_word(old(text)@, word@),
{
    let t = trim(word);
    if t.len() > 0 {
        if text.len() > 0 {
            text.push(' ');
        }
        let ghost start = text@;
        text.extend_from_slice(t);
        assert(text@ =~= start + t@);
        assert(start.len() == 0 ==> text@ =~= t@);
    }
}

/// The position at which a text goes into a row of texts in reading order.
fn reading_position(items: &Vec<GridItem>, order: &Vec<usize>, k: usize) -> (r: usize)
    requires
        k < items@.len(),
        forall|i: int| 0 <= i < order@.len() ==> (#[trigger] order@[i]) < items@.len(),
    ensures
        r <= order@.len(),
        r > 0 ==> !is_read_before(items@[k as int], items@[order@[r - 1] as int]),
        forall|i: int|
            r <= i < order@.len() ==> is_read_before(
                items@[k as int],
                items@[#[trigger] order@[i] as int],
            ),
{
    let y: i64 = order_key(items[k].y);
    let x: i64 = order_key(items[k].x);
    let mut p: usize = order.len();
    while p > 0
        invariant
            p <= order@.len(),
            k < items@.len(),
            y == order_of(items@[k as int].y),
            x == order_of(items@[k as int].x),
            forall|i: int| 0 <= i < order@.len() ==> (#[trigger] order@[i]) < items@.len(),
            forall|i: int|
                p <= i < order@.len() ==> is_read_before(
                    items@[k as int],
                    items@[#[trigger] order@[i] as int],
                ),
        decreases p,
    {
        let other: usize = order[p - 1];
        let other_y: i64 = order_key(items[other].y);
        let other_x: i64 = order_key(items[other].x);
        if !(other_y < y || (other_y == y && x < other_x)) {
            return p;
        }
        p = p - 1;
    }
    p
}

/// The texts at the given positions.
pub open spec fn texts_at(items: Seq<GridItem>, order: Seq<usize>) -> Seq<GridItem> {
    order.map_values(|k: usize| items[k as int])
}

proof fn lemma_with_text_split(
    head: Seq<GridItem>,
    tail: Seq<GridItem>,
    text: GridItem,
)
    requires
        forall|i: int| 0 <= i < tail.len() ==> is_read_before(text, #[trigger] tail[i]),
    ensures
        with_text(head + tail, text) == with_text(head, text) + tail,
    decreases tail.len(),
{
    if tail.len() == 0 {
        assert(head + tail =~= head);
        assert(with_text(head, text) + tail =~= with_text(head, text));
    } else {
        let all = head + tail;
        assert(all.last() == tail[tail.len() - 1]);
        assert(all.drop_last() =~= head + tail.drop_last());
        lemma_with_text_split(head, tail.drop_last(), text);
        assert(with_text(all, text) =~= with_text(head, text) + tail);
    }
}

/// Whether a place is the cell that a text falls into.
pub open spec fn is_place(item: GridItem, page: u32, place: Option<(usize, usize)>) -> bool {
    match place {
        Some(p) => item.cell(page) == Some((p.0 as int, p.1 as int)),
        None => item.cell(page) is None,
    }
}

/// Whether each place is the cell that a text falls into.
spec fn are_places(
    items: Seq<GridItem>,
    page: u32,
    places: Seq<Option<(usize, usize)>>,
) -> bool {
    places.len() == items.len() && forall|k: int|
        0 <= k < items.len() ==> is_place(items[k], page, #[trigger] places[k])
}

/// The text of a cell.
fn build_cell(
    items: &Vec<GridItem>,
    page: u32,
    places: &Vec<Option<(usize, usize)>>,
    row: usize,
    col: usize,
) -> (r: String)
    requires
        are_places(items@, page, places@),
    ensures
        r@ == cell_text(items@, page, row as int, col as int),
{
    let mut order: Vec<usize> = Vec::new();
    let mut i: usize = 0;
    assert(texts_at(items@, order@) =~= seq![]);
    while i < items.len()
        invariant
            i <= items@.len(),
            are_places(items@, page, places@),
            forall|k: int| 0 <= k < order@.len() ==> (#[trigger] order@[k]) < items@.len(),
            texts_at(items@, order@) == texts_in_cell(
                items@,
                page,
                i as int,
                row as int,
                col as int,
            ),
        decreases items@.len() - i,
    {
        let here = match places[i] {
            Some(p) => p.0 == row && p.1 == col,
            None => false,
        };
        assert(is_place(items@[i as int], page, places@[i as int]));
        if here {
            let p: usize = reading_position(items, &order, i);
            let ghost before = texts_at(items@, order@);
            let ghost held = order@;
            proof {
                let head = before.take(p as int);
                let tail = before.skip(p as int);
                assert(before =~= head + tail);
                assert forall|k: int| 0 <= k < tail.len() implies is_read_before(
                    items@[i as int],
                    #[trigger] tail[k],
                ) by {
                    assert(tail[k] == items@[held[p + k] as int]);
                }
                lemma_with_text_split(head, tail, items@[i as int]);
                if p > 0 {
                    assert(head.last() == items@[held[p - 1] as int]);
                }
                assert(with_text(head, items@[i as int]) == head.push(items@[i as int]));
            }
            order.insert(p, i);
            assert(texts_at(items@, order@) =~= before.take(p as int).push(items@[i as int])
                + before.skip(p as int));
        }
        i = i + 1;
    }
    let ghost texts = texts_at(items@, order@);
    let mut text: Vec<char> = Vec::new();
    let mut k: usize = 0;
    assert(texts.take(0) =~= seq![]);
    assert(text@ =~= seq![]);
    while k < order.len()
        invariant
            k <= order@.len(),
            forall|j: int| 0 <= j < order@.len() ==> (#[trigger] order@[j]) < items@.len(),
            texts == texts_at(items@, order@),
            text@ == joined_texts(texts.take(k as int)),
        decreases order@.len() - k,
    {
        assert(texts.take(k + 1).drop_last() =~= texts.take(k as int));
        assert(texts.take(k + 1).last() == items@[order@[k as int] as int]);
        let word = chars_of(items[order[k]].text.as_str());
        push_word(&mut text, word.as_slice());
        k = k + 1;
    }
    assert(texts.take(k as int) =~= texts);
    string_of(text.as_slice())
}

/// Cells as they are held, as plain contents.
pub open spec fn cell_contents(cells: Seq<Vec<String>>) -> Seq<Seq<Seq<char>>> {
    cells.map_values(|row: Vec<String>| row@.map_values(|c: String| c@))
}

/// The texts of all cells of a grid.
pub open spec fn grid_text(items: Seq<GridItem>, page: u32, rows: nat, cols: nat) -> Seq<
    Seq<Seq<char>>,
> {
    Seq::new(rows, |r: int| Seq::new(cols, |c: int| cell_text(items, page, r, c)))
}

/// Whether a text falls into a cell of a grid of a page.
pub open spec fn is_placed(items: Seq<GridItem>, page: u32) -> spec_fn(usize) -> bool {
    |k: usize| items[k as int].cell(page) is Some
}

/// The texts that fall into a cell, by their numbers.
pub open spec fn placed_items(items: Seq<GridItem>, page: u32, n: nat) -> Seq<usize> {
    indices(n).filter(is_placed(items, page))
}

/// Fills the cells of a grid with the texts of a page that fall into them. Returns the cells, and
/// the numbers of these texts.
pub fn assign_items_to_grid(items: &Vec<GridItem>, page: u32, rows: usize, cols: usize) -> (r: (
    Vec<Vec<String>>,
    Vec<usize>,
))
    ensures
        cell_contents(r.0@) == grid_text(items@, page, rows as nat, cols as nat),
        r.1@ == placed_items(items@, page, items@.len()),
{
    let ghost wanted = is_placed(items@, page);
    let mut places: Vec<Option<(usize, usize)>> = Vec::new();
    let mut taken: Vec<usize> = Vec::new();
    let mut k: usize = 0;
    assert(indices(0).filter(wanted) =~= seq![]) by {
        reveal(Seq::filter);
    }
    while k < items.len()
        invariant
            k <= items@.len(),
            wanted == is_placed(items@, page),
            places@.len() == k,
            forall|j: int| 0 <= j < k ==> is_place(items@[j], page, #[trigger] places@[j]),
            taken@ == indices(k as nat).filter(wanted),
        decreases items@.len() - k,
    {
        assert(indices((k + 1) as nat) =~= indices(k as nat).push(k));
        assert(indices((k + 1) as nat).drop_last() =~= indices(k as nat));
        reveal(Seq::filter);
        let place = items[k].find_cell(page);
        if place.is_some() {
            taken.push(k);
        }
        places.push(place);
        k = k + 1;
    }
    let ghost all = grid_text(items@, page, rows as nat, cols as nat);
    let mut out: Vec<Vec<String>> = Vec::new();
    let mut i: usize = 0;
    while i < rows
        invariant
            i <= rows,
            are_places(items@, page, places@),
            all == grid_text(items@, page, rows as nat, cols as nat),
            cell_contents(out@) == all.take(i as int),
        decreases rows - i,
    {
        let ghost before = cell_contents(out@);
        let mut row: Vec<String> = Vec::new();
        let mut j: usize = 0;
        while j < cols
            invariant
                i < rows,
                j <= cols,
                are_places(items@, page, places@),
                all == grid_text(items@, page, rows as nat, cols as nat),
                row@.map_values(|c: String| c@) == all[i as int].take(j as int),
            decreases cols - j,
        {
            let ghost cells = row@.map_values(|c: String| c@);
            let text = build_cell(items, page, &places, i, j);
            let ghost added = text@;
            row.push(text);
            assert(row@.map_values(|c: String| c@) =~= cells.push(added));
            j = j + 1;
            assert(row@.map_values(|c: String| c@) =~= all[i as int].take(j as int));
        }
        assert(row@.map_values(|c: String| c@) =~= all[i as int]);
        let ghost added = row@.map_values(|c: String| c@);
        out.push(row);
        assert(cell_contents(out@) =~= before.push(added));
        i = i + 1;
        assert(cell_contents(out@) =~= all.take(i as int));
    }
    assert(cell_contents(out@) =~= all);
    (out, taken)
}

proof fn lemma_with_text(texts: Seq<GridItem>, text: GridItem)
    ensures
        with_text(texts, text).contains(text),
        forall|t: GridItem| texts.contains(t) ==> #[trigger] with_text(texts, text).contains(t),
    decreases texts.len(),
{
    let all = with_text(texts, text);
    if texts.len() == 0 || !is_read_before(text, texts.last()) {
        assert(all[texts.len() as int] == text);
        assert forall|t: GridItem| texts.contains(t) implies #[trigger] all.contains(t) by {
            let i = choose|i: int| 0 <= i < texts.len() && texts[i] == t;
            assert(all[i] == t);
        }
    } else {
        let rest = texts.drop_last();
        let before = with_text(rest, text);
        lemma_with_text(rest, text);
        let p = choose|p: int| 0 <= p < before.len() && before[p] == text;
        assert(all[p] == text);
        assert forall|t: GridItem| texts.contains(t) implies #[trigger] all.contains(t) by {
            let i = choose|i: int| 0 <= i < texts.len() && texts[i] == t;
            if i < rest.len() {
                assert(rest[i] == t);
                assert(before.contains(t));
                let q = choose|q: int| 0 <= q < before.len() && before[q] == t;
                assert(all[q] == t);
            } else {
                assert(all[before.len() as int] == t);
            }
        }
    }
}

/// Every text that falls into a cell of a grid is among the texts of the cell.
pub proof fn lemma_cells_hold_their_texts(
    items: Seq<GridItem>,
    page: u32,
    n: int,
    k: int,
    row: int,
    col: int,
)
    requires
        0 <= k < n <= items.len(),
        items[k].cell(page) == Some((row, col)),
    ensures
        texts_in_cell(items, page, n, row, col).contains(items[k]),
    decreases n,
{
    lemma_with_text(texts_in_cell(items, page, n - 1, row, col), items[n - 1]);
    if k < n - 1 {
        lemma_cells_hold_their_texts(items, page, n - 1, k, row, col);
    }
}

// ---------------------------------------------------------------------------------------------
// Merged cells
// ---------------------------------------------------------------------------------------------

/// Whether a grid has `rows` rows of `cols` cells each.
pub open spec fn is_grid(cells: Seq<Seq<Seq<char>>>, rows: nat, cols: nat) -> bool {
    cells.len() == rows && forall|r: int|
        0 <= r < rows ==> (#[trigger] cells[r]).len() == cols
}

/// The texts of a column from row `first` up to but without row `end`, one behind the other.
pub open spec fn column_text(cells: Seq<Seq<Seq<char>>>, col: int, first: int, end: int) -> Seq<
    char,
>
    decreases end - first,
{
    if end <= first {
        seq![]
    } else {
        with_word(column_text(cells, col, first, end - 1), cells[end - 1][col])
    }
}

/// A grid with the cells of a column from row `first` to row `last` merged: their texts go into
/// the first of them.
pub open spec fn merged_span(cells: Seq<Seq<Seq<char>>>, col: int, first: int, last: int) -> Seq<
    Seq<Seq<char>>,
> {
    Seq::new(
        cells.len(),
        |r: int|
            if r == first {
                cells[r].update(col, column_text(cells, col, first, last + 1))
            } else if first < r <= last {
                cells[r].update(col, seq![])
            } else {
                cells[r]
            },
    )
}

/// A grid with the first `n` spans of a list merged, one after the other. A span is a column, its
/// first row and its last row.
pub open spec fn merged_spans(
    cells: Seq<Seq<Seq<char>>>,
    spans: Seq<(usize, usize, usize)>,
    n: int,
) -> Seq<Seq<Seq<char>>>
    decreases n,
{
    if n <= 0 {
        cells
    } else {
        let span = spans[n - 1];
        merged_span(
            merged_spans(cells, spans, n - 1),
            span.0 as int,
            span.1 as int,
            span.2 as int,
        )
    }
}

proof fn lemma_merged_spans_grid(
    cells: Seq<Seq<Seq<char>>>,
    spans: Seq<(usize, usize, usize)>,
    n: int,
    rows: nat,
    cols: nat,
)
    requires
        is_grid(cells, rows, cols),
        are_spans(spans, rows, cols),
        0 <= n <= spans.len(),
    ensures
        is_grid(merged_spans(cells, spans, n), rows, cols),
    decreases n,
{
    if n > 0 {
        lemma_merged_spans_grid(cells, spans, n - 1, rows, cols);
        let before = merged_spans(cells, spans, n - 1);
        assert(spans[n - 1].0 < cols);
        assert forall|r: int| 0 <= r < rows implies (#[trigger] merged_spans(
            cells,
            spans,
            n,
        )[r]).len() == cols by {
            assert(before[r].len() == cols);
        }
    }
}

/// Whether each span lies within a grid.
pub open spec fn are_spans(spans: Seq<(usize, usize, usize)>, rows: nat, cols: nat) -> bool {
    forall|k: int|
        0 <= k < spans.len() ==> (#[trigger] spans[k]).0 < cols && spans[k].1 < spans[k].2
            && spans[k].2 < rows
}

/// Replaces the text of a cell.
fn set_cell(cells: &mut Vec<Vec<String>>, row: usize, col: usize, text: String)
    requires
        row < old(cells)@.len(),
        col < old(cells)@[row as int]@.len(),
    ensures
        cell_contents(final(cells)@) == cell_contents(old(cells)@).update(
            row as int,
            cell_contents(old(cells)@)[row as int].update(col as int, text@),
        ),
{
    let ghost before = cells@;
    let ghost added = text@;
    cells[row].set(col, text);
    proof {
        let new_row = cells@[row as int]@.map_values(|c: String| c@);
        let old_row = before[row as int]@.map_values(|c: String| c@);
        assert(new_row =~= old_row.update(col as int, added));
        assert(cell_contents(cells@) =~= cell_contents(before).update(row as int, new_row));
    }
}

/// Merges the cells of spans, one after the other.
fn merge_spans(cells: &mut Vec<Vec<String>>, spans: &Vec<(usize, usize, usize)>)
    requires
        exists|rows: nat, cols: nat|
            is_grid(cell_contents(old(cells)@), rows, cols) && are_spans(spans@, rows, cols),
    ensures
        cell_contents(final(cells)@) == merged_spans(
            cell_contents(old(cells)@),
            spans@,
            spans@.len() as int,
        ),
{
    let ghost start = cell_contents(cells@);
    let ghost (rows, cols): (nat, nat) = choose|rows: nat, cols: nat|
        is_grid(start, rows, cols) && are_spans(spans@, rows, cols);
    let height: usize = cells.len();
    let mut k: usize = 0;
    while k < spans.len()
        invariant
            k <= spans@.len(),
            rows == height,
            is_grid(start, rows, cols),
            are_spans(spans@, rows, cols),
            cell_contents(cells@) == merged_spans(start, spans@, k as int),
        decreases spans@.len() - k,
    {
        let (col, first, last) = spans[k];
        assert(spans@[k as int] == (col, first, last));
        let ghost now = cell_contents(cells@);
        proof {
            lemma_merged_spans_grid(start, spans@, k as int, rows, cols);
        }
        let mut text: Vec<char> = Vec::new();
        let mut r: usize = first;
        assert(text@ =~= seq![]);
        while r <= last
            invariant
                first <= r <= last + 1,
                last < rows == height,
                col < cols,
                is_grid(now, rows, cols),
                now == cell_contents(cells@),
                text@ == column_text(now, col as int, first as int, r as int),
            decreases last + 1 - r,
        {
            assert(now[r as int].len() == cols);
            assert(now[r as int][col as int] == cells@[r as int]@[col as int]@);
            let word = chars_of(cells[r][col].as_str());
            push_word(&mut text, word.as_slice());
            r = r + 1;
        }
        let ghost combined = text@;
        assert(now[first as int].len() == cols);
        set_cell(cells, first, col, string_of(text.as_slice()));
        let mut q: usize = first + 1;
        while q <= last
            invariant
                first < q <= last + 1,
                last < rows == height,
                col < cols,
                is_grid(now, rows, cols),
                is_grid(cell_contents(cells@), rows, cols),
                combined == column_text(now, col as int, first as int, last + 1),
                forall|r: int|
                    0 <= r < rows ==> #[trigger] cell_contents(cells@)[r] == if r == first {
                        now[r].update(col as int, combined)
                    } else if first < r < q {
                        now[r].update(col as int, seq![])
                    } else {
                        now[r]
                    },
            decreases last + 1 - q,
        {
            assert(cell_contents(cells@)[q as int] == now[q as int]);
            assert(now[q as int].len() == cols);
            let empty: String = String::new();
            assert(empty@ =~= seq![]);
            let ghost before = cell_contents(cells@);
            set_cell(cells, q, col, empty);
            assert(is_grid(cell_contents(cells@), rows, cols)) by {
                assert forall|r: int| 0 <= r < rows implies (#[trigger] cell_contents(
                    cells@,
                )[r]).len() == cols by {
                    assert(before[r].len() == cols);
                }
            }
            q = q + 1;
        }
        assert(cell_contents(cells@) =~= merged_span(now, col as int, first as int, last as int));
        k = k + 1;
    }
}

/// A rectangle as it lies on a grid: of each column and of each row whether the rectangle reaches
/// over it, and whether the rectangle is the background of the page.
#[derive(Debug, Clone)]
pub struct GridRect {
    pub is_background: bool,
    pub over_cols: Vec<bool>,
    pub over_rows: Vec<bool>,
}

/// Whether rectangles were measured on a grid with so many rows and columns.
pub open spec fn are_measured(rects: Seq<GridRect>, rows: nat, cols: nat) -> bool {
    forall|k: int|
        0 <= k < rects.len() ==> (#[trigger] rects[k]).over_cols@.len() == cols
            && rects[k].over_rows@.len() == rows
}

/// The cells of a column that a rectangle spans: from the first row that it reaches over to the
/// last, where these differ.
pub open spec fn rect_span(rect: GridRect, col: int) -> Option<(int, int)> {
    match (first_set(rect.over_rows@, 0), last_set(rect.over_rows@, rect.over_rows@.len() as int)) {
        (Some(f), Some(l)) => if !rect.is_background && rect.over_cols@[col] && f < l {
            Some((f, l))
        } else {
            None
        },
        _ => None,
    }
}

/// The cells of a column that the first `n` rectangles span.
pub open spec fn column_spans(rects: Seq<GridRect>, col: int, n: int) -> Seq<(usize, usize, usize)>
    decreases n,
{
    if n <= 0 {
        seq![]
    } else {
        let before = column_spans(rects, col, n - 1);
        match rect_span(rects[n - 1], col) {
            Some(s) => before.push((col as usize, s.0 as usize, s.1 as usize)),
            None => before,
        }
    }
}

/// The cells of the first `cols` columns that rectangles span.
pub open spec fn grid_spans(rects: Seq<GridRect>, cols: int) -> Seq<(usize, usize, usize)>
    decreases cols,
{
    if cols <= 0 {
        seq![]
    } else {
        grid_spans(rects, cols - 1) + column_spans(rects, cols - 1, rects.len() as int)
    }
}

/// Finds the cells of a grid that rectangles span vertically.
fn find_spans(rects: &Vec<GridRect>, rows: usize, cols: usize) -> (r: Vec<(usize, usize, usize)>)
    requires
        are_measured(rects@, rows as nat, cols as nat),
    ensures
        r@ == grid_spans(rects@, cols as int),
        are_spans(r@, rows as nat, cols as nat),
{
    let mut spans: Vec<(usize, usize, usize)> = Vec::new();
    let mut c: usize = 0;
    while c < cols
        invariant
            c <= cols,
            are_measured(rects@, rows as nat, cols as nat),
            spans@ == grid_spans(rects@, c as int),
            are_spans(spans@, rows as nat, cols as nat),
        decreases cols - c,
    {
        let ghost before = spans@;
        let mut k: usize = 0;
        assert(before + column_spans(rects@, c as int, 0) =~= before);
        while k < rects.len()
            invariant
                c < cols,
                k <= rects@.len(),
                are_measured(rects@, rows as nat, cols as nat),
                spans@ == before + column_spans(rects@, c as int, k as int),
                are_spans(spans@, rows as nat, cols as nat),
            decreases rects@.len() - k,
        {
            let rect = &rects[k];
            assert(rects@[k as int].over_cols@.len() == cols);
            assert(rects@[k as int].over_rows@.len() == rows);
            if !rect.is_background && rect.over_cols[c] {
                match (find_first(&rect.over_rows), find_last(&rect.over_rows)) {
                    (Some(first), Some(last)) => {
                        if first < last {
                            spans.push((c, first, last));
                        }
                    },
                    _ => {},
                }
            }
            k = k + 1;
            assert(spans@ =~= before + column_spans(rects@, c as int, k as int));
        }
        c = c + 1;
    }
    spans
}

/// Merges the cells that a rectangle spans vertically, column by column: their texts go into the
/// first of them, so that the rows below continue it.
pub fn propagate_merged_cells(
    cells: &mut Vec<Vec<String>>,
    rects: &Vec<GridRect>,
    rows: usize,
    cols: usize,
)
    requires
        is_grid(cell_contents(old(cells)@), rows as nat, cols as nat),
        are_measured(rects@, rows as nat, cols as nat),
    ensures
        cell_contents(final(cells)@) == merged_spans(
            cell_contents(old(cells)@),
            grid_spans(rects@, cols as int),
            grid_spans(rects@, cols as int).len() as int,
        ),
        is_grid(cell_contents(final(cells)@), rows as nat, cols as nat),
{
    let spans = find_spans(rects, rows, cols);
    proof {
        lemma_merged_spans_grid(
            cell_contents(cells@),
            spans@,
            spans@.len() as int,
            rows as nat,
            cols as nat,
        );
    }
    merge_spans(cells, &spans);
}

/// A text continued by the words of a column from row `first` up to but without row `end`.
spec fn continued(text: Seq<char>, cells: Seq<Seq<Seq<char>>>, col: int, first: int, end: int) -> Seq<
    char,
>
    decreases end - first,
{
    if end <= first {
        text
    } else {
        with_word(continued(text, cells, col, first, end - 1), cells[end - 1][col])
    }
}

proof fn lemma_column_text_clean(cells: Seq<Seq<Seq<char>>>, col: int, first: int, end: int)
    ensures
        column_text(cells, col, first, end).len() > 0 ==> !is_space(
            column_text(cells, col, first, end).first(),
        ) && !is_space(column_text(cells, col, first, end).last()),
    decreases end - first,
{
    if end > first {
        lemma_column_text_clean(cells, col, first, end - 1);
        lemma_trimmed_is_final(cells[end - 1][col]);
    }
}

proof fn lemma_word_of_column(
    text: Seq<char>,
    cells: Seq<Seq<Seq<char>>>,
    col: int,
    first: int,
    end: int,
)
    ensures
        with_word(text, column_text(cells, col, first, end)) == continued(
            text,
            cells,
            col,
            first,
            end,
        ),
    decreases end - first,
{
    if end <= first {
        lemma_trimmed_is_final(seq![]);
        assert(trimmed(Seq::<char>::empty()) =~= seq![]);
    } else {
        lemma_word_of_column(text, cells, col, first, end - 1);
        lemma_column_text_clean(cells, col, first, end - 1);
        lemma_column_text_clean(cells, col, first, end);
        let before = column_text(cells, col, first, end - 1);
        let now = column_text(cells, col, first, end);
        let word = trimmed(cells[end - 1][col]);
        if now.len() > 0 {
            lemma_trimmed_of_clean(now);
        }
        if before.len() > 0 {
            lemma_trimmed_of_clean(before);
        } else {
            assert(trimmed(before) =~= seq![]) by {
                assert(before =~= seq![]);
                assert(trimmed_start(before) =~= seq![]);
            }
        }
        if word.len() > 0 && text.len() > 0 && before.len() > 0 {
            assert(text.push(' ') + now =~= (text.push(' ') + before).push(' ') + word);
        }
    }
}

proof fn lemma_continued_is_column(cells: Seq<Seq<Seq<char>>>, col: int, first: int, end: int)
    requires
        0 <= first <= end,
    ensures
        continued(column_text(cells, col, 0, first), cells, col, first, end) == column_text(
            cells,
            col,
            0,
            end,
        ),
    decreases end - first,
{
    if end > first {
        lemma_continued_is_column(cells, col, first, end - 1);
    }
}

proof fn lemma_merged_prefix(
    cells: Seq<Seq<Seq<char>>>,
    col: int,
    first: int,
    last: int,
    n: int,
)
    requires
        0 <= first <= last < cells.len(),
        0 <= n <= cells.len(),
        forall|r: int| 0 <= r < cells.len() ==> 0 <= col < (#[trigger] cells[r]).len(),
    ensures
        column_text(merged_span(cells, col, first, last), col, 0, n) == if first < n <= last {
            column_text(cells, col, 0, last + 1)
        } else {
            column_text(cells, col, 0, n)
        },
    decreases n,
{
    let merged = merged_span(cells, col, first, last);
    if n > 0 {
        lemma_merged_prefix(cells, col, first, last, n - 1);
        let r = n - 1;
        assert(cells[r].len() > col);
        if r == first {
            lemma_word_of_column(
                column_text(cells, col, 0, first),
                cells,
                col,
                first,
                last + 1,
            );
            lemma_continued_is_column(cells, col, first, last + 1);
        } else if first < r <= last {
            assert(merged[r][col] == Seq::<char>::empty());
            assert(trimmed(Seq::<char>::empty()) =~= seq![]) by {
                assert(trimmed_start(Seq::<char>::empty()) =~= seq![]);
            }
        }
    }
}

/// To merge cells loses no text: a column reads the same from top to bottom.
#[verifier::spinoff_prover]
pub proof fn lemma_merging_keeps_the_text(
    cells: Seq<Seq<Seq<char>>>,
    col: int,
    first: int,
    last: int,
)
    requires
        0 <= first <= last < cells.len(),
        forall|r: int| 0 <= r < cells.len() ==> 0 <= col < (#[trigger] cells[r]).len(),
    ensures
        column_text(merged_span(cells, col, first, last), col, 0, cells.len() as int)
            == column_text(cells, col, 0, cells.len() as int),
{
    lemma_merged_prefix(cells, col, first, last, cells.len() as int);
}

// ---------------------------------------------------------------------------------------------
// What makes a grid a table
// ---------------------------------------------------------------------------------------------

/// Whether a cell is blank.
pub open spec fn is_blank_cell(cell: Seq<char>) -> bool {
    trimmed(cell).len() == 0
}

/// How many cells of a row are not blank.
pub open spec fn filled_in_row(row: Seq<Seq<char>>) -> nat
    decreases row.len(),
{
    if row.len() == 0 {
        0
    } else {
        filled_in_row(row.drop_last()) + if is_blank_cell(row.last()) {
            0nat
        } else {
            1nat
        }
    }
}

/// How many cells of the first `n` rows are not blank.
pub open spec fn filled_cells(cells: Seq<Seq<Seq<char>>>, n: int) -> nat
    decreases n,
{
    if n <= 0 {
        0
    } else {
        filled_cells(cells, n - 1) + filled_in_row(cells[n - 1])
    }
}

/// How many of the first `n` rows hold a cell that is not blank.
pub open spec fn filled_rows(cells: Seq<Seq<Seq<char>>>, n: int) -> nat
    decreases n,
{
    if n <= 0 {
        0
    } else {
        filled_rows(cells, n - 1) + if filled_in_row(cells[n - 1]) > 0 {
            1nat
        } else {
            0nat
        }
    }
}

/// Whether a column holds a cell that is not blank.
pub open spec fn is_column_filled(cells: Seq<Seq<Seq<char>>>, col: int) -> bool {
    exists|r: int| 0 <= r < cells.len() && !is_blank_cell(#[trigger] cells[r][col])
}

/// Whether all cells are at most so many bytes long in UTF-8.
pub open spec fn are_cells_short(cells: Seq<Seq<Seq<char>>>, limit: nat) -> bool {
    forall|r: int, c: int|
        0 <= r < cells.len() && 0 <= c < cells[r].len() ==> utf8_size(#[trigger] cells[r][c])
            <= limit
}

/// What a grid has to show to be a table: so many rows that are not blank, so many cells in a
/// hundred that are not blank, and, where it is given, no cell longer than so many bytes.
#[derive(Debug, Clone, Copy, PartialEq, Eq, Structural)]
pub struct GridRule {
    pub min_rows: usize,
    pub min_percent: usize,
    pub max_cell_bytes: Option<usize>,
}

/// The rule for a grid of rectangles. A strict rule asks for more rows and more cells, and for no
/// cell that holds a paragraph.
pub open spec fn rectangle_rule(rows: usize, strict: bool) -> GridRule {
    if strict {
        GridRule { min_rows: rows / 2, min_percent: 40, max_cell_bytes: Some(200) }
    } else {
        GridRule { min_rows: 2, min_percent: 25, max_cell_bytes: None }
    }
}

/// The rule for a grid of rows whose columns come from the text.
pub open spec fn stripe_rule() -> GridRule {
    GridRule { min_rows: 2, min_percent: 40, max_cell_bytes: None }
}

/// Whether a grid with `rows` rows and `cols` columns is a table by a rule. No column may be blank.
pub open spec fn is_table(
    cells: Seq<Seq<Seq<char>>>,
    rows: nat,
    cols: nat,
    rule: GridRule,
) -> bool {
    &&& filled_rows(cells, rows as int) >= rule.min_rows
    &&& filled_cells(cells, rows as int) * 100 >= rule.min_percent * (rows * cols)
    &&& rule.max_cell_bytes matches Some(limit) ==> are_cells_short(cells, limit as nat)
    &&& forall|c: int| 0 <= c < cols ==> #[trigger] is_column_filled(cells, c)
}

/// The rule for a grid of rectangles.
fn grid_rule(rows: usize, strict: bool) -> (r: GridRule)
    ensures
        r == rectangle_rule(rows, strict),
{
    if strict {
        GridRule { min_rows: rows / 2, min_percent: 40, max_cell_bytes: Some(200) }
    } else {
        GridRule { min_rows: 2, min_percent: 25, max_cell_bytes: None }
    }
}

/// The rule for a grid of rows whose columns come from the text.
fn row_rule() -> (r: GridRule)
    ensures
        r == stripe_rule(),
{
    GridRule { min_rows: 2, min_percent: 40, max_cell_bytes: None }
}

/// Whether a cell is blank.
fn is_blank_text(cell: &String) -> (r: bool)
    ensures
        r == is_blank_cell(cell@),
{
    let chars = chars_of(cell.as_str());
    trim(chars.as_slice()).len() == 0
}

/// How many cells of a row are not blank.
fn count_filled(row: &Vec<String>) -> (r: usize)
    ensures
        r == filled_in_row(row@.map_values(|c: String| c@)),
        r <= row@.len(),
{
    let ghost all = row@.map_values(|c: String| c@);
    let mut count: usize = 0;
    let mut i: usize = 0;
    assert(all.take(0) =~= seq![]);
    while i < row.len()
        invariant
            i <= row@.len(),
            count <= i,
            all == row@.map_values(|c: String| c@),
            count == filled_in_row(all.take(i as int)),
        decreases row@.len() - i,
    {
        assert(all.take(i + 1).drop_last() =~= all.take(i as int));
        if !is_blank_text(&row[i]) {
            count = count + 1;
        }
        i = i + 1;
    }
    assert(all.take(i as int) =~= all);
    count
}

/// Whether a column holds a cell that is not blank.
fn has_filled_column(cells: &Vec<Vec<String>>, col: usize) -> (r: bool)
    requires
        forall|i: int| 0 <= i < cells@.len() ==> col < (#[trigger] cells@[i])@.len(),
    ensures
        r == is_column_filled(cell_contents(cells@), col as int),
{
    let ghost all = cell_contents(cells@);
    let mut i: usize = 0;
    while i < cells.len()
        invariant
            i <= cells@.len(),
            all == cell_contents(cells@),
            forall|k: int| 0 <= k < cells@.len() ==> col < (#[trigger] cells@[k])@.len(),
            forall|k: int| 0 <= k < i ==> is_blank_cell(#[trigger] all[k][col as int]),
        decreases cells@.len() - i,
    {
        assert(all[i as int][col as int] == cells@[i as int]@[col as int]@);
        if !is_blank_text(&cells[i][col]) {
            return true;
        }
        i = i + 1;
    }
    false
}

proof fn lemma_utf8_size_take(s: Seq<char>, n: int)
    requires
        0 <= n <= s.len(),
    ensures
        utf8_size(s.take(n)) <= utf8_size(s),
    decreases s.len(),
{
    if n < s.len() {
        lemma_utf8_size_take(s.drop_last(), n);
        assert(s.drop_last().take(n) =~= s.take(n));
    } else {
        assert(s.take(n) =~= s);
    }
}

/// Whether a text is at most so many bytes long in UTF-8.
fn is_within_bytes(s: &[char], limit: usize) -> (r: bool)
    ensures
        r == (utf8_size(s@) <= limit),
{
    let mut size: usize = 0;
    let mut i: usize = 0;
    assert(s@.take(0) =~= seq![]);
    while i < s.len()
        invariant
            i <= s@.len(),
            size <= limit,
            size == utf8_size(s@.take(i as int)),
        decreases s@.len() - i,
    {
        let width: usize = utf8_width_of(s[i]);
        assert(s@.take(i + 1).drop_last() =~= s@.take(i as int));
        proof {
            lemma_utf8_size_take(s@, i + 1);
        }
        if width > limit - size {
            return false;
        }
        size = size + width;
        i = i + 1;
    }
    assert(s@.take(i as int) =~= s@);
    true
}

/// Whether all cells are at most so many bytes long.
fn has_short_cells(cells: &Vec<Vec<String>>, limit: usize) -> (r: bool)
    ensures
        r == are_cells_short(cell_contents(cells@), limit as nat),
{
    let ghost all = cell_contents(cells@);
    let mut i: usize = 0;
    while i < cells.len()
        invariant
            i <= cells@.len(),
            all == cell_contents(cells@),
            forall|r: int, c: int|
                0 <= r < i && 0 <= c < all[r].len() ==> utf8_size(#[trigger] all[r][c]) <= limit,
        decreases cells@.len() - i,
    {
        let mut j: usize = 0;
        while j < cells[i].len()
            invariant
                i < cells@.len(),
                j <= cells@[i as int]@.len(),
                all == cell_contents(cells@),
                forall|c: int| 0 <= c < j ==> utf8_size(#[trigger] all[i as int][c]) <= limit,
            decreases cells@[i as int]@.len() - j,
        {
            assert(all[i as int][j as int] == cells@[i as int]@[j as int]@);
            let chars = chars_of(cells[i][j].as_str());
            if !is_within_bytes(chars.as_slice(), limit) {
                return false;
            }
            j = j + 1;
        }
        i = i + 1;
    }
    true
}

/// Whether a grid with `cols` columns is a table by a rule.
fn accepts_grid(cells: &Vec<Vec<String>>, cols: usize, rule: &GridRule) -> (r: bool)
    requires
        is_grid(cell_contents(cells@), cells@.len(), cols as nat),
        cells@.len() * cols <= usize::MAX,
        rule.min_percent <= 100,
    ensures
        r == is_table(cell_contents(cells@), cells@.len(), cols as nat, *rule),
{
    let ghost all = cell_contents(cells@);
    let rows: usize = cells.len();
    assert forall|i: int| 0 <= i < rows implies (#[trigger] cells@[i])@.len() == cols by {
        assert(all[i].len() == cols);
    }
    let mut full_rows: usize = 0;
    let mut full: usize = 0;
    let mut i: usize = 0;
    while i < rows
        invariant
            i <= rows == cells@.len(),
            all == cell_contents(cells@),
            forall|k: int| 0 <= k < rows ==> (#[trigger] cells@[k])@.len() == cols,
            full_rows <= i,
            full_rows == filled_rows(all, i as int),
            full == filled_cells(all, i as int),
            full <= i * cols,
            rows * cols <= usize::MAX,
        decreases rows - i,
    {
        assert(all[i as int] =~= cells@[i as int]@.map_values(|c: String| c@));
        let n: usize = count_filled(&cells[i]);
        assert(cells@[i as int]@.len() == cols);
        assert(i * cols + cols == (i + 1) * cols) by (nonlinear_arith);
        assert((i + 1) * cols <= rows * cols) by (nonlinear_arith)
            requires
                i + 1 <= rows,
        ;
        if n > 0 {
            full_rows = full_rows + 1;
        }
        full = full + n;
        i = i + 1;
    }
    if full_rows < rule.min_rows {
        return false;
    }
    let total: usize = rows * cols;
    assert(rule.min_percent * total <= 100 * usize::MAX) by (nonlinear_arith)
        requires
            rule.min_percent <= 100,
            total <= usize::MAX,
    ;
    if full as u128 * 100 < rule.min_percent as u128 * total as u128 {
        return false;
    }
    match rule.max_cell_bytes {
        Some(limit) => {
            if !has_short_cells(cells, limit) {
                return false;
            }
        },
        None => {},
    }
    let mut c: usize = 0;
    while c < cols
        invariant
            c <= cols,
            all == cell_contents(cells@),
            forall|k: int| 0 <= k < cells@.len() ==> (#[trigger] cells@[k])@.len() == cols,
            forall|k: int| 0 <= k < c ==> #[trigger] is_column_filled(all, k),
        decreases cols - c,
    {
        if !has_filled_column(cells, c) {
            assert(!is_column_filled(all, c as int));
            return false;
        }
        c = c + 1;
    }
    true
}

/// Whether a rectangle reaches over a cell.
pub open spec fn is_covered(rects: Seq<GridRect>, row: int, col: int) -> bool {
    exists|k: int|
        0 <= k < rects.len() && (#[trigger] rects[k]).over_rows@[row] && rects[k].over_cols@[col]
}

/// How many of the first `n` cells of a row are covered by a rectangle.
pub open spec fn covered_in_row(rects: Seq<GridRect>, row: int, n: int) -> nat
    decreases n,
{
    if n <= 0 {
        0
    } else {
        covered_in_row(rects, row, n - 1) + if is_covered(rects, row, n - 1) {
            1nat
        } else {
            0nat
        }
    }
}

/// How many cells of the first `n` rows are covered by a rectangle.
pub open spec fn covered_cells(rects: Seq<GridRect>, cols: int, n: int) -> nat
    decreases n,
{
    if n <= 0 {
        0
    } else {
        covered_cells(rects, cols, n - 1) + covered_in_row(rects, n - 1, cols)
    }
}

/// Whether a rectangle reaches over a cell.
fn has_cover(rects: &Vec<GridRect>, row: usize, col: usize) -> (r: bool)
    requires
        forall|k: int|
            0 <= k < rects@.len() ==> row < (#[trigger] rects@[k]).over_rows@.len() && col
                < rects@[k].over_cols@.len(),
    ensures
        r == is_covered(rects@, row as int, col as int),
{
    let mut k: usize = 0;
    while k < rects.len()
        invariant
            k <= rects@.len(),
            forall|j: int|
                0 <= j < rects@.len() ==> row < (#[trigger] rects@[j]).over_rows@.len() && col
                    < rects@[j].over_cols@.len(),
            forall|j: int|
                0 <= j < k ==> !((#[trigger] rects@[j]).over_rows@[row as int]
                    && rects@[j].over_cols@[col as int]),
        decreases rects@.len() - k,
    {
        if rects[k].over_rows[row] && rects[k].over_cols[col] {
            return true;
        }
        k = k + 1;
    }
    false
}

/// Counts the cells of a grid that are covered by a rectangle.
fn count_covered(rects: &Vec<GridRect>, rows: usize, cols: usize) -> (r: usize)
    requires
        are_measured(rects@, rows as nat, cols as nat),
        rows * cols <= usize::MAX,
    ensures
        r == covered_cells(rects@, cols as int, rows as int),
        r <= rows * cols,
{
    let mut count: usize = 0;
    let mut i: usize = 0;
    while i < rows
        invariant
            i <= rows,
            are_measured(rects@, rows as nat, cols as nat),
            rows * cols <= usize::MAX,
            count == covered_cells(rects@, cols as int, i as int),
            count <= i * cols,
        decreases rows - i,
    {
        assert(i * cols + cols == (i + 1) * cols) by (nonlinear_arith);
        assert((i + 1) * cols <= rows * cols) by (nonlinear_arith)
            requires
                i + 1 <= rows,
        ;
        let ghost before = count;
        let mut j: usize = 0;
        while j < cols
            invariant
                i < rows,
                j <= cols,
                are_measured(rects@, rows as nat, cols as nat),
                count == before + covered_in_row(rects@, i as int, j as int),
                count <= before + j,
                before + cols <= usize::MAX,
            decreases cols - j,
        {
            if has_cover(rects, i, j) {
                count = count + 1;
            }
            j = j + 1;
        }
        i = i + 1;
    }
    count
}

// ---------------------------------------------------------------------------------------------
// Finding tables
// ---------------------------------------------------------------------------------------------

/// A table: the middles of its columns and rows, real numbers given by their bits, its cells, and
/// the numbers of the texts that it holds.
#[derive(Debug, Clone)]
pub struct Table {
    pub columns: Vec<u32>,
    pub rows: Vec<u32>,
    pub cells: Vec<Vec<String>>,
    pub item_indices: Vec<usize>,
}

/// What a table is made of.
pub struct TableContent {
    pub columns: Seq<u32>,
    pub rows: Seq<u32>,
    pub cells: Seq<Seq<Seq<char>>>,
    pub items: Seq<usize>,
}

impl View for Table {
    type V = TableContent;

    open spec fn view(&self) -> TableContent {
        TableContent {
            columns: self.columns@,
            rows: self.rows@,
            cells: cell_contents(self.cells@),
            items: self.item_indices@,
        }
    }
}

/// The content of a table that may be there.
pub open spec fn content_of(table: Option<Table>) -> Option<TableContent> {
    match table {
        Some(t) => Some(t@),
        None => None,
    }
}

/// The contents of tables.
pub open spec fn contents_of(tables: Seq<Table>) -> Seq<TableContent> {
    tables.map_values(|t: Table| t@)
}

/// A grid that may be a table: the middles of its columns and rows, and what lies on it.
#[derive(Debug, Clone)]
pub struct Sheet {
    pub columns: Vec<u32>,
    pub rows: Vec<u32>,
    pub items: Vec<GridItem>,
    pub rects: Vec<GridRect>,
}

impl Sheet {
    /// Whether the rows go down, the rectangles were measured on the grid, and its cells can be
    /// counted.
    pub open spec fn wf(self) -> bool {
        &&& forall|i: int, j: int|
            0 <= i < j < self.rows@.len() ==> order_of(#[trigger] self.rows@[j]) <= order_of(
                #[trigger] self.rows@[i],
            )
        &&& are_measured(self.rects@, self.rows@.len(), self.columns@.len())
        &&& self.rows@.len() * self.columns@.len() <= usize::MAX
    }

    /// The cells of the grid, filled with the texts of a page.
    pub open spec fn filled(self, page: u32) -> Seq<Seq<Seq<char>>> {
        grid_text(self.items@, page, self.rows@.len(), self.columns@.len())
    }

    /// The table that the grid is with the given cells.
    pub open spec fn table(self, page: u32, cells: Seq<Seq<Seq<char>>>) -> TableContent {
        TableContent {
            columns: self.columns@,
            rows: self.rows@,
            cells,
            items: placed_items(self.items@, page, self.items@.len()),
        }
    }
}

/// The table that a grid of rectangles is. It has at least two and at most 25 columns and at least
/// three rows; at least three cells in ten are covered by a rectangle; some text falls into it; and
/// it is a table by its rule. In grids of up to ten columns, cells that a rectangle spans are
/// merged.
pub open spec fn grid_table(sheet: Sheet, page: u32, strict: bool) -> Option<TableContent> {
    let rows = sheet.rows@.len();
    let cols = sheet.columns@.len();
    let spans = grid_spans(sheet.rects@, cols as int);
    let cells = if cols <= 10 {
        merged_spans(sheet.filled(page), spans, spans.len() as int)
    } else {
        sheet.filled(page)
    };
    if 2 <= cols <= 25 && rows >= 3 && 10 * covered_cells(sheet.rects@, cols as int, rows as int)
        >= 3 * (rows * cols) && sheet.table(page, cells).items.len() > 0 && is_table(
        cells,
        rows,
        cols,
        rectangle_rule(rows as usize, strict),
    ) {
        Some(sheet.table(page, cells))
    } else {
        None
    }
}

/// Copies numbers.
fn copy_numbers(list: &Vec<u32>) -> (r: Vec<u32>)
    ensures
        r@ == list@,
{
    let mut out: Vec<u32> = Vec::new();
    let mut i: usize = 0;
    while i < list.len()
        invariant
            i <= list@.len(),
            out@ == list@.take(i as int),
        decreases list@.len() - i,
    {
        out.push(list[i]);
        i = i + 1;
        assert(out@ =~= list@.take(i as int));
    }
    assert(out@ =~= list@);
    out
}

/// Makes a table of a grid of rectangles, where it is one.
pub fn try_build_grid(sheet: &Sheet, page: u32, strict: bool) -> (r: Option<Table>)
    requires
        sheet.wf(),
    ensures
        content_of(r) == grid_table(*sheet, page, strict),
{
    let rows: usize = sheet.rows.len();
    let cols: usize = sheet.columns.len();
    if cols < 2 || cols > 25 || rows < 3 {
        return None;
    }
    let covered: usize = count_covered(&sheet.rects, rows, cols);
    if (covered as u128) * 10 < (rows * cols) as u128 * 3 {
        return None;
    }
    let (mut cells, taken) = assign_items_to_grid(&sheet.items, page, rows, cols);
    assert(is_grid(cell_contents(cells@), rows as nat, cols as nat));
    if cols <= 10 {
        propagate_merged_cells(&mut cells, &sheet.rects, rows, cols);
    }
    if taken.len() == 0 || !accepts_grid(&cells, cols, &grid_rule(rows, strict)) {
        return None;
    }
    Some(
        Table {
            columns: copy_numbers(&sheet.columns),
            rows: copy_numbers(&sheet.rows),
            cells,
            item_indices: taken,
        },
    )
}

/// The table that a grid is whose columns come from the text. It has at least two columns and at
/// least three rows, some text falls into it, and it is a table by its rule.
pub open spec fn text_table(sheet: Sheet, page: u32) -> Option<TableContent> {
    let rows = sheet.rows@.len();
    let cols = sheet.columns@.len();
    let cells = sheet.filled(page);
    if cols >= 2 && rows >= 3 && sheet.table(page, cells).items.len() > 0 && is_table(
        cells,
        rows,
        cols,
        stripe_rule(),
    ) {
        Some(sheet.table(page, cells))
    } else {
        None
    }
}

/// Makes a table of a grid whose rows come from all rectangles of a page's clusters and whose
/// columns come from the text, where it is one.
pub fn detect_merged_cluster_table(sheet: &Sheet, page: u32) -> (r: Option<Table>)
    requires
        sheet.wf(),
    ensures
        content_of(r) == text_table(*sheet, page),
{
    let rows: usize = sheet.rows.len();
    let cols: usize = sheet.columns.len();
    if cols < 2 || rows < 3 {
        return None;
    }
    let (cells, taken) = assign_items_to_grid(&sheet.items, page, rows, cols);
    assert(is_grid(cell_contents(cells@), rows as nat, cols as nat));
    if taken.len() == 0 || !accepts_grid(&cells, cols, &row_rule()) {
        return None;
    }
    Some(
        Table {
            columns: copy_numbers(&sheet.columns),
            rows: copy_numbers(&sheet.rows),
            cells,
            item_indices: taken,
        },
    )
}

/// The given real numbers, in ascending order.
pub open spec fn sorted_values(values: Seq<u32>) -> Seq<u32> {
    sorted_by_keys(indices(values.len()), value_keys(values)).map_values(
        |k: usize| values[k as int],
    )
}

/// Whether `kept` are the edges that stay of the first `n` of a list: each that is not near the
/// edge kept before it.
pub open spec fn are_snapped<F: Fn(u32, u32) -> bool>(
    near: F,
    edges: Seq<u32>,
    n: int,
    kept: Seq<u32>,
) -> bool
    decreases n,
{
    if n <= 0 {
        kept.len() == 0
    } else {
        ||| kept.len() > 0 && near.ensures((edges[n - 1], kept.last()), true) && are_snapped(
            near,
            edges,
            n - 1,
            kept,
        )
        ||| kept.len() > 0 && kept.last() == edges[n - 1] && (kept.len() > 1 ==> near.ensures(
            (edges[n - 1], kept[kept.len() - 2]),
            false,
        )) && are_snapped(near, edges, n - 1, kept.drop_last())
    }
}

/// Takes out of a list of edges, real numbers given by their bits, those that are near another. The
/// rest comes in ascending order. `near` answers of an edge and the edge kept before it.
pub fn snap_edges<F: Fn(u32, u32) -> bool>(values: &Vec<u32>, near: F) -> (r: Vec<u32>)
    requires
        forall|a: u32, b: u32| near.requires((a, b)),
    ensures
        are_snapped(near, sorted_values(values@), values@.len() as int, r@),
{
    let n: usize = values.len();
    let keys = get_value_keys(values);
    let order = sort_by_keys(&count_up(n), &keys);
    let ghost edges = sorted_values(values@);
    proof {
        lemma_sorted_by_keys(indices(n as nat), keys@);
    }
    let mut kept: Vec<u32> = Vec::new();
    let mut i: usize = 0;
    while i < n
        invariant
            i <= n == values@.len() == order@.len(),
            have_keys(order@, keys@),
            keys@.len() == n,
            forall|a: u32, b: u32| near.requires((a, b)),
            edges == order@.map_values(|k: usize| values@[k as int]),
            i > 0 ==> kept@.len() > 0,
            are_snapped(near, edges, i as int, kept@),
        decreases n - i,
    {
        let edge: u32 = values[order[i]];
        assert(edge == edges[i as int]);
        if kept.len() > 0 {
            let last: u32 = kept[kept.len() - 1];
            if near(edge, last) {
                i = i + 1;
                continue;
            }
        }
        let ghost before = kept@;
        kept.push(edge);
        assert(kept@.drop_last() =~= before);
        i = i + 1;
    }
    kept
}

/// Whether a flag of a list is set.
pub open spec fn is_set(flags: Seq<bool>) -> spec_fn(usize) -> bool {
    |k: usize| flags[k as int]
}

/// Whether answers are those of `fits` to each of the values and their median.
pub open spec fn are_answers<F: Fn(u32, u32) -> bool>(
    fits: F,
    values: Seq<u32>,
    answers: Seq<bool>,
) -> bool {
    answers.len() == values.len() && forall|i: int|
        0 <= i < answers.len() ==> fits.ensures((values[i], median(values)), #[trigger] answers[i])
}

/// Asks `fits` of each of the values and their median.
pub(crate) fn hold_to_median<F: Fn(u32, u32) -> bool>(values: &Vec<u32>, fits: F) -> (r: Vec<bool>)
    requires
        values@.len() > 0,
        forall|v: u32, m: u32| fits.requires((v, m)),
    ensures
        are_answers(fits, values@, r@),
{
    let middle: u32 = find_median(values);
    let mut answers: Vec<bool> = Vec::new();
    let mut i: usize = 0;
    while i < values.len()
        invariant
            i <= values@.len(),
            middle == median(values@),
            forall|v: u32, m: u32| fits.requires((v, m)),
            answers@.len() == i,
            forall|k: int|
                0 <= k < i ==> fits.ensures((values@[k], middle), #[trigger] answers@[k]),
        decreases values@.len() - i,
    {
        answers.push(fits(values[i], middle));
        i = i + 1;
    }
    answers
}

/// Selects rectangles by their widths or heights: of at least six, those that `fits` answers yes to
/// for the value and the median of all.
pub fn select_by_median<F: Fn(u32, u32) -> bool>(values: &Vec<u32>, fits: F) -> (r: Vec<usize>)
    requires
        forall|v: u32, m: u32| fits.requires((v, m)),
    ensures
        values@.len() < 6 ==> r@ == indices(values@.len()),
        values@.len() >= 6 ==> exists|answers: Seq<bool>|
            #[trigger] are_answers(fits, values@, answers) && r@ == indices(values@.len()).filter(
                is_set(answers),
            ),
{
    if values.len() < 6 {
        return count_up(values.len());
    }
    let answers = hold_to_median(values, fits);
    collect_set(&answers)
}

/// The positions at which a flag is set.
fn collect_set(flags: &Vec<bool>) -> (r: Vec<usize>)
    ensures
        r@ == indices(flags@.len()).filter(is_set(flags@)),
{
    let ghost wanted = is_set(flags@);
    let mut out: Vec<usize> = Vec::new();
    let mut i: usize = 0;
    assert(indices(0).filter(wanted) =~= seq![]) by {
        reveal(Seq::filter);
    }
    while i < flags.len()
        invariant
            i <= flags@.len(),
            wanted == is_set(flags@),
            out@ == indices(i as nat).filter(wanted),
        decreases flags@.len() - i,
    {
        assert(indices((i + 1) as nat) =~= indices(i as nat).push(i));
        assert(indices((i + 1) as nat).drop_last() =~= indices(i as nat));
        reveal(Seq::filter);
        if flags[i] {
            out.push(i);
        }
        i = i + 1;
    }
    out
}

/// Whether a region of hints holds those of the heights that `fits` finds near their median: there are
/// two to eight heights, and at least two of them do.
pub open spec fn is_hint_region<F: Fn(u32, u32) -> bool>(
    r: Option<Vec<usize>>,
    heights: Seq<u32>,
    fits: F,
) -> bool {
    if 2 <= heights.len() <= 8 {
        exists|answers: Seq<bool>|
            {
                &&& #[trigger] are_answers(fits, heights, answers)
                &&& r is Some == (yes_count(answers) >= 2)
                &&& r matches Some(kept) ==> kept@ == indices(heights.len()).filter(is_set(answers))
            }
    } else {
        r is None
    }
}

/// Selects the rectangles of a small cluster that hint at where a table lies, by their heights:
/// those that `fits` answers yes to for the height and the median of all. There have to be at least
/// two of them, of two to eight.
pub fn extract_hint_region<F: Fn(u32, u32) -> bool>(heights: &Vec<u32>, fits: F) -> (r: Option<
    Vec<usize>,
>)
    requires
        forall|v: u32, m: u32| fits.requires((v, m)),
    ensures
        is_hint_region(r, heights@, fits),
        !(2 <= heights@.len() <= 8) ==> r is None,
        2 <= heights@.len() <= 8 ==> exists|answers: Seq<bool>|
            {
                &&& #[trigger] are_answers(fits, heights@, answers)
                &&& r is Some == (yes_count(answers) >= 2)
                &&& r matches Some(kept) ==> kept@ == indices(heights@.len()).filter(
                    is_set(answers),
                )
            },
{
    if heights.len() < 2 || heights.len() > 8 {
        return None;
    }
    let answers = hold_to_median(heights, fits);
    let kept = collect_set(&answers);
    proof {
        lemma_set_count(answers@, answers@.len());
        assert(answers@.take(answers@.len() as int) =~= answers@);
    }
    if kept.len() >= 2 {
        Some(kept)
    } else {
        None
    }
}

proof fn lemma_set_count(flags: Seq<bool>, n: nat)
    requires
        n <= flags.len(),
        flags.len() <= usize::MAX,
    ensures
        indices(n).filter(is_set(flags)).len() == yes_count(flags.take(n as int)),
    decreases n,
{
    reveal(Seq::filter);
    if n > 0 {
        lemma_set_count(flags, (n - 1) as nat);
        assert(indices(n).drop_last() =~= indices((n - 1) as nat));
        assert(flags.take(n as int).drop_last() =~= flags.take(n - 1));
        assert(indices(n).last() == n - 1);
    }
}

/// How many texts a column needs: a quarter of what each has on the average, and at least two.
pub open spec fn column_minimum(items: nat, columns: nat) -> nat {
    let share = items / (if columns == 0 {
        1
    } else {
        columns
    }) / 4;
    if share < 2 {
        2
    } else {
        share
    }
}

/// Selects the columns with enough texts. `counts` are the numbers of texts at each of them,
/// `items` is the number of texts in all.
pub fn cluster_x_positions(counts: &Vec<usize>, items: usize) -> (r: Vec<usize>)
    ensures
        r@ == indices(counts@.len()).filter(
            |k: usize| counts@[k as int] >= column_minimum(items as nat, counts@.len()),
        ),
{
    let n: usize = counts.len();
    let share: usize = items / (if n == 0 {
        1
    } else {
        n
    }) / 4;
    let least: usize = if share < 2 {
        2
    } else {
        share
    };
    let ghost wanted = |k: usize| counts@[k as int] >= column_minimum(items as nat, counts@.len());
    let mut out: Vec<usize> = Vec::new();
    let mut i: usize = 0;
    assert(indices(0).filter(wanted) =~= seq![]) by {
        reveal(Seq::filter);
    }
    while i < n
        invariant
            i <= n == counts@.len(),
            least == column_minimum(items as nat, counts@.len()),
            wanted == (|k: usize|
                counts@[k as int] >= column_minimum(items as nat, counts@.len())),
            out@ == indices(i as nat).filter(wanted),
        decreases n - i,
    {
        assert(indices((i + 1) as nat) =~= indices(i as nat).push(i));
        assert(indices((i + 1) as nat).drop_last() =~= indices(i as nat));
        reveal(Seq::filter);
        if counts[i] >= least {
            out.push(i);
        }
        i = i + 1;
    }
    out
}

/// The bits of the real number 200.
const WIDE: u32 = 0x43480000;

/// Whether a real number, given by its bits, is greater than 200.
pub open spec fn is_wide(bits: u32) -> bool {
    0x43480000 < bits <= 0x7F80_0000
}

/// Whether rectangles are the stripes of rows, given their widths and whether each is about as wide
/// as their median: there are at least three, the median is wider than 200, and more than three in
/// four are about as wide.
pub open spec fn are_stripes(widths: Seq<u32>, alike: Seq<bool>) -> bool {
    widths.len() >= 3 && is_wide(median(widths)) && 4 * yes_count(alike) > 3 * widths.len()
}

/// Whether rectangles with the given widths are the stripes of rows. `alike` answers of a width and
/// the median of the widths whether they are about the same.
pub fn is_row_stripe_pattern<F: Fn(u32, u32) -> bool>(widths: &Vec<u32>, alike: F) -> (r: bool)
    requires
        forall|w: u32, m: u32| alike.requires((w, m)),
    ensures
        widths@.len() < 3 || !is_wide(median(widths@)) ==> !r,
        widths@.len() >= 3 && is_wide(median(widths@)) ==> exists|answers: Seq<bool>|
            #[trigger] are_answers(alike, widths@, answers) && r == are_stripes(widths@, answers),
{
    let n: usize = widths.len();
    if n < 3 {
        return false;
    }
    let middle: u32 = find_median(widths);
    if !(WIDE < middle && middle <= 0x7F80_0000) {
        return false;
    }
    let answers = hold_to_median(widths, alike);
    let count: usize = collect_set(&answers).len();
    proof {
        lemma_set_count(answers@, answers@.len());
        assert(answers@.take(answers@.len() as int) =~= answers@);
    }
    count as u128 * 4 > n as u128 * 3
}

/// The table that stripes are the rows of.
pub open spec fn stripe_table(stripes: Stripes, page: u32) -> Option<TableContent> {
    if stripes.are_stripes {
        text_table(stripes.sheet, page)
    } else {
        None
    }
}

/// A grid whose rows come from rectangles and whose columns come from the text, and whether the
/// rectangles are the stripes of rows.
#[derive(Debug, Clone)]
pub struct Stripes {
    pub are_stripes: bool,
    pub sheet: Sheet,
}

/// Makes a table of a grid whose rows are stripes, where it is one.
pub fn detect_row_stripe_table(stripes: &Stripes, page: u32) -> (r: Option<Table>)
    requires
        stripes.sheet.wf(),
    ensures
        content_of(r) == stripe_table(*stripes, page),
{
    if stripes.are_stripes {
        detect_merged_cluster_table(&stripes.sheet, page)
    } else {
        None
    }
}

/// Whether a rectangle is the background of the page.
pub open spec fn has_background(rects: Seq<GridRect>) -> bool {
    exists|k: int| 0 <= k < rects.len() && (#[trigger] rects[k]).is_background
}

/// The table of a cluster of rectangles: that of its grid; where this is none, and the grid
/// without the columns of the page's background has at least eleven rows, that of this grid by the
/// strict rule.
pub open spec fn group_table(whole: Sheet, bare: Sheet, page: u32) -> Option<TableContent> {
    match grid_table(whole, page, false) {
        Some(t) => Some(t),
        None => if has_background(bare.rects@) && bare.rows@.len() >= 11 {
            grid_table(bare, page, true)
        } else {
            None
        },
    }
}

/// Makes a table of a cluster of rectangles, where it is one. `whole` is its grid, `bare` the grid
/// without the edges of rectangles that are the background of the page.
pub fn detect_table_from_rect_group(whole: &Sheet, bare: &Sheet, page: u32) -> (r: Option<Table>)
    requires
        whole.wf(),
        bare.wf(),
    ensures
        content_of(r) == group_table(*whole, *bare, page),
{
    let first = try_build_grid(whole, page, false);
    if first.is_some() || bare.rows.len() < 11 {
        return first;
    }
    let mut k: usize = 0;
    while k < bare.rects.len()
        invariant
            k <= bare.rects@.len(),
            bare.wf(),
            bare.rows@.len() >= 11,
            grid_table(*whole, page, false) is None,
            forall|j: int| 0 <= j < k ==> !(#[trigger] bare.rects@[j]).is_background,
        decreases bare.rects@.len() - k,
    {
        if bare.rects[k].is_background {
            assert(has_background(bare.rects@));
            return try_build_grid(bare, page, true);
        }
        k = k + 1;
    }
    None
}

/// A cluster of rectangles: how many there are, and the grids that they may form.
#[derive(Debug, Clone)]
pub struct Cluster {
    pub size: usize,
    pub whole: Sheet,
    pub bare: Sheet,
    pub stripes: Stripes,
}

impl Cluster {
    /// Whether the grids were measured.
    pub open spec fn wf(self) -> bool {
        self.whole.wf() && self.bare.wf() && self.stripes.sheet.wf()
    }

    /// The table of the cluster: that of its grid, or else that of its stripes.
    pub open spec fn table(self, page: u32) -> Option<TableContent> {
        match group_table(self.whole, self.bare, page) {
            Some(t) => Some(t),
            None => stripe_table(self.stripes, page),
        }
    }
}

/// The tables of the first `n` clusters.
pub open spec fn cluster_tables(clusters: Seq<Cluster>, page: u32, n: int) -> Seq<TableContent>
    decreases n,
{
    if n <= 0 {
        seq![]
    } else {
        let before = cluster_tables(clusters, page, n - 1);
        match clusters[n - 1].table(page) {
            Some(t) => before.push(t),
            None => before,
        }
    }
}

/// How many rectangles the first `n` clusters have in all.
pub open spec fn clustered(clusters: Seq<Cluster>, n: int) -> nat
    decreases n,
{
    if n <= 0 {
        0
    } else {
        clustered(clusters, n - 1) + clusters[n - 1].size as nat
    }
}

/// Whether all tables have up to three columns.
pub open spec fn are_narrow(tables: Seq<TableContent>) -> bool {
    forall|i: int| 0 <= i < tables.len() ==> (#[trigger] tables[i]).columns.len() <= 3
}

/// The tables of a page with clusters of rectangles: those of the clusters. Where these are none or
/// only narrow ones, and there are at least three clusters with at least 50 rectangles in all, the
/// table of all of them together takes their place.
pub open spec fn found_tables(clusters: Seq<Cluster>, merged: Sheet, page: u32) -> Seq<
    TableContent,
> {
    let n = clusters.len() as int;
    let found = cluster_tables(clusters, page, n);
    if are_narrow(found) && n >= 3 && clustered(clusters, n) >= 50 {
        match text_table(merged, page) {
            Some(t) => seq![t],
            None => found,
        }
    } else {
        found
    }
}

/// The tables of a page with so many rectangles. A page with fewer than six has none. Where nothing
/// is found and there is no cluster, at least 15 rectangles may be the stripes of a table with at
/// least ten rows.
pub open spec fn page_tables(
    rects: usize,
    clusters: Seq<Cluster>,
    merged: Sheet,
    all: Stripes,
    page: u32,
) -> Seq<TableContent> {
    let found = found_tables(clusters, merged, page);
    if rects < 6 {
        seq![]
    } else if found.len() == 0 && clusters.len() == 0 && rects >= 15 {
        match stripe_table(all, page) {
            Some(t) => if t.rows.len() >= 10 {
                seq![t]
            } else {
                seq![]
            },
            None => seq![],
        }
    } else {
        found
    }
}

/// Finds the tables of a page with so many rectangles. `clusters` are the clusters of at least six
/// of them, `merged` is the grid of all clusters together, `all` that of all rectangles. Says also
/// whether the rectangles may hint at where a table lies: there is none, and there are four to six
/// of them.
pub fn detect_tables_from_rects(
    rects: usize,
    clusters: &Vec<Cluster>,
    merged: &Sheet,
    all: &Stripes,
    page: u32,
) -> (r: (Vec<Table>, bool))
    requires
        forall|k: int| 0 <= k < clusters@.len() ==> (#[trigger] clusters@[k]).wf(),
        merged.wf(),
        all.sheet.wf(),
    ensures
        contents_of(r.0@) == page_tables(rects, clusters@, *merged, *all, page),
        r.1 == (r.0@.len() == 0 && 4 <= rects <= 6),
{
    let mut tables: Vec<Table> = Vec::new();
    assert(contents_of(tables@) =~= seq![]);
    if rects < 6 {
        return (tables, rects >= 4);
    }
    let n: usize = clusters.len();
    let mut total: usize = 0;
    let mut narrow = true;
    let mut k: usize = 0;
    while k < n
        invariant
            k <= n == clusters@.len(),
            forall|j: int| 0 <= j < n ==> (#[trigger] clusters@[j]).wf(),
            contents_of(tables@) == cluster_tables(clusters@, page, k as int),
            narrow == are_narrow(contents_of(tables@)),
            total == if clustered(clusters@, k as int) <= usize::MAX {
                clustered(clusters@, k as int)
            } else {
                usize::MAX as nat
            },
        decreases n - k,
    {
        let cluster = &clusters[k];
        assert(clusters@[k as int].wf());
        let ghost before = contents_of(tables@);
        let mut found = detect_table_from_rect_group(&cluster.whole, &cluster.bare, page);
        if found.is_none() {
            found = detect_row_stripe_table(&cluster.stripes, page);
        }
        match found {
            Some(t) => {
                let ghost added = t@;
                let is_narrow = t.columns.len() <= 3;
                tables.push(t);
                proof {
                    assert(contents_of(tables@) =~= before.push(added));
                    let now = before.push(added);
                    if narrow && is_narrow {
                        assert(are_narrow(now));
                    } else if !is_narrow {
                        assert(now[before.len() as int] == added);
                        assert(!are_narrow(now));
                    } else {
                        let i = choose|i: int|
                            0 <= i < before.len() && (#[trigger] before[i]).columns.len() > 3;
                        assert(now[i] == before[i]);
                        assert(!are_narrow(now));
                    }
                }
                narrow = narrow && is_narrow;
            },
            None => {},
        }
        total = total.saturating_add(cluster.size);
        k = k + 1;
    }
    if narrow && n >= 3 && total >= 50 {
        match detect_merged_cluster_table(merged, page) {
            Some(t) => {
                let ghost added = t@;
                tables = Vec::new();
                tables.push(t);
                assert(contents_of(tables@) =~= seq![added]);
            },
            None => {},
        }
    }
    assert(contents_of(tables@) == found_tables(clusters@, *merged, page));
    assert(contents_of(tables@).len() == tables@.len());
    if tables.len() == 0 && n == 0 && rects >= 15 {
        match detect_row_stripe_table(all, page) {
            Some(t) => {
                if t.rows.len() >= 10 {
                    let ghost added = t@;
                    tables.push(t);
                    assert(contents_of(tables@) =~= seq![added]);
                }
            },
            None => {},
        }
    }
    let hints = tables.len() == 0 && rects <= 6;
    (tables, hints)
}

} // verus!
