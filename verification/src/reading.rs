//! Reading order: which column a piece of text belongs to, and how the lines of a page with columns
//! follow each other.

use crate::layout::{
    are_answers_above, are_beside, are_lines, arrange_newspaper, get_reading_keys, group_in_order,
    height_contents, is_core, is_newspaper, is_newspaper_layout, joined_lists, least_of,
    line_counts, newspaper_order, reading_keys, shortest, split_column_stragglers, Spot,
};
use crate::numbers::{order_key, order_of};
use crate::ordering::{
    have_keys, indices, lemma_sorted_by_keys, sort_by_keys, sorted_by_keys, yes_count,
};
use crate::tables::{are_answers, hold_to_median, list_contents};
use vstd::prelude::*;

verus! {

// ---------------------------------------------------------------------------------------------
// Columns of pieces
// ---------------------------------------------------------------------------------------------

/// A piece of text as it lies across the columns of a page: of each column whether the piece
/// reaches well into it, and how far the two overlap, a real number given by its bits.
#[derive(Debug, Clone)]
pub struct ColumnSpan {
    pub reaches: Vec<bool>,
    pub overlaps: Vec<u32>,
}

/// The first of the first `n` columns that overlap most.
pub open spec fn best_column(overlaps: Seq<u32>, n: int) -> int
    decreases n,
{
    if n <= 1 {
        0
    } else {
        let best = best_column(overlaps, n - 1);
        if order_of(overlaps[n - 1]) > order_of(overlaps[best]) {
            n - 1
        } else {
            best
        }
    }
}

impl ColumnSpan {
    /// Whether a piece spans columns: it reaches into at least two.
    pub open spec fn spans(self) -> bool {
        yes_count(self.reaches@) >= 2
    }

    /// The column of a piece that does not span columns.
    pub open spec fn column(self) -> int {
        best_column(self.overlaps@, self.overlaps@.len() as int)
    }
}

/// Whether a piece of text spans columns.
pub fn spans_multiple_columns(piece: &ColumnSpan) -> (r: bool)
    ensures
        r == piece.spans(),
{
    let mut count: usize = 0;
    let mut i: usize = 0;
    assert(piece.reaches@.take(0) =~= seq![]);
    while i < piece.reaches.len()
        invariant
            i <= piece.reaches@.len(),
            count <= i,
            count == yes_count(piece.reaches@.take(i as int)),
        decreases piece.reaches@.len() - i,
    {
        assert(piece.reaches@.take(i + 1).drop_last() =~= piece.reaches@.take(i as int));
        if piece.reaches[i] {
            count = count + 1;
        }
        i = i + 1;
    }
    assert(piece.reaches@.take(i as int) =~= piece.reaches@);
    count >= 2
}

/// The column that a piece of text overlaps most.
pub fn find_column(piece: &ColumnSpan) -> (r: usize)
    requires
        piece.overlaps@.len() > 0,
    ensures
        r == piece.column(),
        r < piece.overlaps@.len(),
{
    let mut best: usize = 0;
    let mut n: usize = 1;
    while n < piece.overlaps.len()
        invariant
            1 <= n <= piece.overlaps@.len(),
            best < n,
            best == best_column(piece.overlaps@, n as int),
        decreases piece.overlaps@.len() - n,
    {
        if order_key(piece.overlaps[n]) > order_key(piece.overlaps[best]) {
            best = n;
        }
        n = n + 1;
    }
    best
}

/// Whether a piece belongs to column `c`; to none, where `c` is `None`.
pub open spec fn belongs_to(pieces: Seq<ColumnSpan>, c: Option<int>) -> spec_fn(usize) -> bool {
    |k: usize|
        match c {
            Some(n) => !pieces[k as int].spans() && pieces[k as int].column() == n,
            None => pieces[k as int].spans(),
        }
}

/// The pieces of a column, by their numbers; where no column is given, those that span columns.
pub open spec fn column_pieces(pieces: Seq<ColumnSpan>, c: Option<int>) -> Seq<usize> {
    indices(pieces.len()).filter(belongs_to(pieces, c))
}

/// The pieces of a column, or those that span columns.
fn collect_pieces(pieces: &Vec<ColumnSpan>, c: Option<usize>) -> (r: Vec<usize>)
    requires
        forall|k: int| 0 <= k < pieces@.len() ==> (#[trigger] pieces@[k]).overlaps@.len() > 0,
    ensures
        r@ == column_pieces(
            pieces@,
            match c {
                Some(n) => Some(n as int),
                None => None,
            },
        ),
{
    let ghost wanted = belongs_to(
        pieces@,
        match c {
            Some(n) => Some(n as int),
            None => None,
        },
    );
    let mut out: Vec<usize> = Vec::new();
    let mut i: usize = 0;
    assert(indices(0).filter(wanted) =~= seq![]) by {
        reveal(Seq::filter);
    }
    while i < pieces.len()
        invariant
            i <= pieces@.len(),
            forall|k: int| 0 <= k < pieces@.len() ==> (#[trigger] pieces@[k]).overlaps@.len() > 0,
            wanted == belongs_to(
                pieces@,
                match c {
                    Some(n) => Some(n as int),
                    None => None,
                },
            ),
            out@ == indices(i as nat).filter(wanted),
        decreases pieces@.len() - i,
    {
        assert(indices((i + 1) as nat) =~= indices(i as nat).push(i));
        assert(indices((i + 1) as nat).drop_last() =~= indices(i as nat));
        reveal(Seq::filter);
        let spans = spans_multiple_columns(&pieces[i]);
        let takes: bool = match c {
            Some(n) => !spans && find_column(&pieces[i]) == n,
            None => spans,
        };
        if takes {
            out.push(i);
        }
        i = i + 1;
    }
    out
}

/// Puts the pieces of a page with columns into the columns. Returns the pieces that span columns,
/// and those of each column.
pub fn place_items(pieces: &Vec<ColumnSpan>, columns: usize) -> (r: (Vec<usize>, Vec<Vec<usize>>))
    requires
        forall|k: int| 0 <= k < pieces@.len() ==> (#[trigger] pieces@[k]).overlaps@.len() > 0,
    ensures
        r.0@ == column_pieces(pieces@, None),
        list_contents(r.1@) == Seq::new(
            columns as nat,
            |c: int| column_pieces(pieces@, Some(c)),
        ),
{
    let spanning = collect_pieces(pieces, None);
    let ghost all = Seq::new(columns as nat, |c: int| column_pieces(pieces@, Some(c)));
    let mut buckets: Vec<Vec<usize>> = Vec::new();
    let mut c: usize = 0;
    assert(list_contents(buckets@) =~= all.take(0));
    while c < columns
        invariant
            c <= columns,
            forall|k: int| 0 <= k < pieces@.len() ==> (#[trigger] pieces@[k]).overlaps@.len() > 0,
            all == Seq::new(columns as nat, |c: int| column_pieces(pieces@, Some(c))),
            list_contents(buckets@) == all.take(c as int),
        decreases columns - c,
    {
        let ghost before = list_contents(buckets@);
        let bucket = collect_pieces(pieces, Some(c));
        let ghost added = bucket@;
        buckets.push(bucket);
        assert(list_contents(buckets@) =~= before.push(added));
        c = c + 1;
        assert(list_contents(buckets@) =~= all.take(c as int));
    }
    assert(list_contents(buckets@) =~= all);
    (spanning, buckets)
}

proof fn lemma_best_column(overlaps: Seq<u32>, n: int)
    requires
        1 <= n <= overlaps.len(),
    ensures
        0 <= best_column(overlaps, n) < n,
        forall|c: int|
            0 <= c < n ==> order_of(#[trigger] overlaps[c]) <= order_of(
                overlaps[best_column(overlaps, n)],
            ),
    decreases n,
{
    if n > 1 {
        lemma_best_column(overlaps, n - 1);
    }
}

/// Every piece of text is in exactly one place: among those that span columns, or in one column,
/// which no other column overlaps more.
pub proof fn lemma_pieces_have_one_place(pieces: Seq<ColumnSpan>, columns: nat, k: usize)
    requires
        k < pieces.len() <= usize::MAX,
        columns > 0,
        pieces[k as int].overlaps@.len() == columns,
    ensures
        column_pieces(pieces, None).contains(k) == pieces[k as int].spans(),
        forall|c: int| #[trigger]
            column_pieces(pieces, Some(c)).contains(k) == (!pieces[k as int].spans()
                && pieces[k as int].column() == c),
        0 <= pieces[k as int].column() < columns,
        forall|c: int|
            0 <= c < columns ==> order_of(#[trigger] pieces[k as int].overlaps@[c]) <= order_of(
                pieces[k as int].overlaps@[pieces[k as int].column()],
            ),
{
    broadcast use vstd::seq_lib::group_filter_ensures;

    let all = indices(pieces.len());
    assert(all[k as int] == k);
    lemma_best_column(pieces[k as int].overlaps@, columns as int);
    assert forall|c: Option<int>|
        (#[trigger] column_pieces(pieces, c)).contains(k) == belongs_to(pieces, c)(k) by {
        let wanted = belongs_to(pieces, c);
        if column_pieces(pieces, c).contains(k) {
            let i = choose|i: int|
                0 <= i < all.filter(wanted).len() && all.filter(wanted)[i] == k;
            assert(wanted(all.filter(wanted)[i]));
        }
        if wanted(k) {
            assert(wanted(all[k as int]));
            assert(all.filter(wanted).contains(all[k as int]));
        }
    }
}

// ---------------------------------------------------------------------------------------------
// Lines of a page
// ---------------------------------------------------------------------------------------------

/// The heights of lines, given by their numbers.
pub open spec fn heights_at(lines: Seq<Spot>, list: Seq<usize>) -> Seq<u32> {
    list.map_values(|l: usize| lines[l as int].y)
}

/// The heights of the lines of each column.
pub open spec fn column_heights(lines: Seq<Spot>, columns: Seq<Seq<usize>>) -> Seq<Seq<u32>> {
    columns.map_values(|c: Seq<usize>| heights_at(lines, c))
}

/// Whether all lines of a list are there.
pub open spec fn are_lines_of(list: Seq<usize>, n: nat) -> bool {
    forall|i: int| 0 <= i < list.len() ==> (#[trigger] list[i]) < n
}

/// The heights of lines.
fn get_heights(lines: &Vec<Spot>, list: &Vec<usize>) -> (r: Vec<u32>)
    requires
        are_lines_of(list@, lines@.len()),
    ensures
        r@ == heights_at(lines@, list@),
{
    let mut out: Vec<u32> = Vec::new();
    let mut i: usize = 0;
    while i < list.len()
        invariant
            i <= list@.len(),
            are_lines_of(list@, lines@.len()),
            out@ == heights_at(lines@, list@).take(i as int),
        decreases list@.len() - i,
    {
        out.push(lines[list[i]].y);
        i = i + 1;
        assert(out@ =~= heights_at(lines@, list@).take(i as int));
    }
    assert(out@ =~= heights_at(lines@, list@));
    out
}

/// Whether `gaps` are the answers of `gap` to each height and the next.
pub open spec fn are_gaps<G: Fn(u32, u32) -> u32>(gap: G, heights: Seq<u32>, gaps: Seq<u32>) -> bool {
    gaps.len() == heights.len() - 1 && forall|i: int|
        0 <= i < gaps.len() ==> gap.ensures((heights[i], heights[i + 1]), #[trigger] gaps[i])
}

/// Whether gaps, and what `wide` answers of each and their median, make the given lines the core of
/// a column.
pub open spec fn makes_core<G: Fn(u32, u32) -> u32, W: Fn(u32, u32) -> bool>(
    gap: G,
    wide: W,
    heights: Seq<u32>,
    core: (usize, usize),
    gaps: Seq<u32>,
    answers: Seq<bool>,
) -> bool {
    &&& are_gaps(gap, heights, gaps)
    &&& are_answers(wide, gaps, answers)
    &&& is_core(answers, heights.len() as int, core.0 as int, core.1 as int)
}

/// Whether the given lines are the core of a column: all of them where there are fewer than three.
pub open spec fn is_core_of<G: Fn(u32, u32) -> u32, W: Fn(u32, u32) -> bool>(
    gap: G,
    wide: W,
    heights: Seq<u32>,
    core: (usize, usize),
) -> bool {
    if heights.len() < 3 {
        core == (0usize, heights.len() as usize)
    } else {
        exists|gaps: Seq<u32>, answers: Seq<bool>| #[trigger]
            makes_core(gap, wide, heights, core, gaps, answers)
    }
}

/// Finds the core of a column.
fn find_core<G: Fn(u32, u32) -> u32, W: Fn(u32, u32) -> bool>(
    heights: &Vec<u32>,
    gap: &G,
    wide: &W,
) -> (r: (usize, usize))
    requires
        forall|a: u32, b: u32| gap.requires((a, b)),
        forall|a: u32, b: u32| wide.requires((a, b)),
    ensures
        is_core_of(*gap, *wide, heights@, r),
        r.0 <= r.1 <= heights@.len(),
{
    let n: usize = heights.len();
    if n < 3 {
        return (0, n);
    }
    let mut gaps: Vec<u32> = Vec::new();
    let mut i: usize = 0;
    while i < n - 1
        invariant
            i <= n - 1,
            n == heights@.len(),
            forall|a: u32, b: u32| gap.requires((a, b)),
            gaps@.len() == i,
            forall|k: int|
                0 <= k < i ==> gap.ensures((heights@[k], heights@[k + 1]), #[trigger] gaps@[k]),
        decreases n - 1 - i,
    {
        gaps.push(gap(heights[i], heights[i + 1]));
        i = i + 1;
    }
    let answers = hold_to_median(&gaps, wide);
    let core = split_column_stragglers(n, &answers);
    assert(makes_core(*gap, *wide, heights@, core, gaps@, answers@));
    core
}

/// The greatest of real numbers, given by their bits; less than all where there are none.
pub open spec fn highest(heights: Seq<u32>) -> u32
    decreases heights.len(),
{
    if heights.len() == 0 {
        0xFF80_0000
    } else {
        let before = highest(heights.drop_last());
        if order_of(heights.last()) > order_of(before) {
            heights.last()
        } else {
            before
        }
    }
}

/// The lowest of the tops of the first `n` columns, of those whose core is not empty; greater than
/// all where there are none. The top of a column is the height of the highest line of its core.
pub open spec fn lowest_top(heights: Seq<Seq<u32>>, cores: Seq<(usize, usize)>, n: int) -> u32
    decreases n,
{
    if n <= 0 {
        0x7F80_0000
    } else {
        let before = lowest_top(heights, cores, n - 1);
        let core = heights[n - 1].subrange(cores[n - 1].0 as int, cores[n - 1].1 as int);
        if core.len() > 0 && order_of(highest(core)) < order_of(before) {
            highest(core)
        } else {
            before
        }
    }
}

/// The greatest of the real numbers from `s` up to but without `e`.
fn find_highest(heights: &Vec<u32>, s: usize, e: usize) -> (r: u32)
    requires
        s <= e <= heights@.len(),
    ensures
        r == highest(heights@.subrange(s as int, e as int)),
{
    let mut best: u32 = 0xFF80_0000;
    let mut i: usize = s;
    assert(heights@.subrange(s as int, s as int) =~= seq![]);
    while i < e
        invariant
            s <= i <= e <= heights@.len(),
            best == highest(heights@.subrange(s as int, i as int)),
        decreases e - i,
    {
        assert(heights@.subrange(s as int, i + 1).drop_last() =~= heights@.subrange(
            s as int,
            i as int,
        ));
        if order_key(heights[i]) > order_key(best) {
            best = heights[i];
        }
        i = i + 1;
    }
    best
}

/// How the lines of a page with columns are read: in turn, given the cores of the columns and the
/// lines that stand above them; or in rows.
pub open spec fn is_read_in_turn<
    G: Fn(u32, u32) -> u32,
    W: Fn(u32, u32) -> bool,
    A: Fn(u32, u32) -> bool,
>(
    gap: G,
    wide: W,
    above: A,
    lines: Seq<Spot>,
    spanning: Seq<usize>,
    columns: Seq<Seq<usize>>,
    cores: Seq<(usize, usize)>,
    answers: Seq<bool>,
    order: Seq<usize>,
) -> bool {
    let heights = column_heights(lines, columns);
    let all = heights_at(lines, indices(lines.len()));
    &&& cores.len() == columns.len()
    &&& forall|c: int| 0 <= c < cores.len() ==> is_core_of(gap, wide, heights[c], #[trigger] cores[c])
    &&& are_answers_above(above, all, lowest_top(heights, cores, cores.len() as int), answers)
    &&& order == newspaper_order(spanning, columns, cores, answers, all)
}

/// Puts the lines of a page with columns, which are read one after the other, into order. `gap`
/// gives the distance of two heights, `wide` answers of a distance and the median of all whether it
/// is wide, and `above` of two heights whether the first is well above the second.
fn read_in_turn<
    G: Fn(u32, u32) -> u32,
    W: Fn(u32, u32) -> bool,
    A: Fn(u32, u32) -> bool,
>(
    lines: &Vec<Spot>,
    spanning: &Vec<usize>,
    columns: &Vec<Vec<usize>>,
    heights: &Vec<Vec<u32>>,
    gap: &G,
    wide: &W,
    above: &A,
) -> (r: Vec<usize>)
    requires
        height_contents(heights@) == column_heights(lines@, list_contents(columns@)),
        are_lines_of(spanning@, lines@.len()),
        forall|c: int|
            0 <= c < columns@.len() ==> are_lines_of((#[trigger] columns@[c])@, lines@.len()),
        forall|a: u32, b: u32| gap.requires((a, b)),
        forall|a: u32, b: u32| wide.requires((a, b)),
        forall|a: u32, b: u32| above.requires((a, b)),
    ensures
        exists|cores: Seq<(usize, usize)>, answers: Seq<bool>| #[trigger]
            is_read_in_turn(
                *gap,
                *wide,
                *above,
                lines@,
                spanning@,
                list_contents(columns@),
                cores,
                answers,
                r@,
            ),
{
    let ghost tall = height_contents(heights@);
    let n: usize = columns.len();
    assert(tall.len() == n);
    let mut cores: Vec<(usize, usize)> = Vec::new();
    let mut top: u32 = 0x7F80_0000;
    let mut c: usize = 0;
    while c < n
        invariant
            c <= n,
            n == heights@.len(),
            tall == height_contents(heights@),
            forall|a: u32, b: u32| gap.requires((a, b)),
            forall|a: u32, b: u32| wide.requires((a, b)),
            cores@.len() == c,
            forall|k: int| 0 <= k < c ==> is_core_of(*gap, *wide, tall[k], #[trigger] cores@[k]),
            forall|k: int|
                0 <= k < c ==> (#[trigger] cores@[k]).0 <= cores@[k].1 <= heights@[k]@.len(),
            top == lowest_top(tall, cores@, c as int),
        decreases n - c,
    {
        let core: (usize, usize) = find_core(&heights[c], gap, wide);
        let peak: u32 = find_highest(&heights[c], core.0, core.1);
        let ghost before = cores@;
        cores.push(core);
        proof {
            lemma_lowest_top(tall, before, core, c as int);
        }
        if core.0 < core.1 && order_key(peak) < order_key(top) {
            top = peak;
        }
        c = c + 1;
    }
    let mut all: Vec<u32> = Vec::new();
    let mut answers: Vec<bool> = Vec::new();
    let mut i: usize = 0;
    while i < lines.len()
        invariant
            i <= lines@.len(),
            forall|a: u32, b: u32| above.requires((a, b)),
            all@ == heights_at(lines@, indices(lines@.len())).take(i as int),
            answers@.len() == i,
            forall|k: int|
                0 <= k < i ==> above.ensures((lines@[k].y, top), #[trigger] answers@[k]),
        decreases lines@.len() - i,
    {
        all.push(lines[i].y);
        answers.push(above(lines[i].y, top));
        i = i + 1;
        assert(all@ =~= heights_at(lines@, indices(lines@.len())).take(i as int));
    }
    assert(all@ =~= heights_at(lines@, indices(lines@.len())));
    assert forall|k: int| 0 <= k < n implies (#[trigger] cores@[k]).0 <= cores@[k].1
        <= columns@[k]@.len() by {
        assert(tall[k].len() == columns@[k]@.len());
    }
    assert forall|k: int, j: int|
        0 <= k < columns@.len() && 0 <= j < columns@[k]@.len() implies (
    #[trigger] columns@[k]@[j]) < answers@.len() by {
        assert(are_lines_of(columns@[k]@, lines@.len()));
    }
    let order = arrange_newspaper(spanning, columns, &cores, &answers, &all);
    assert(is_read_in_turn(
        *gap,
        *wide,
        *above,
        lines@,
        spanning@,
        list_contents(columns@),
        cores@,
        answers@,
        order@,
    ));
    order
}

proof fn lemma_lowest_top(
    heights: Seq<Seq<u32>>,
    cores: Seq<(usize, usize)>,
    core: (usize, usize),
    n: int,
)
    requires
        0 <= n <= cores.len(),
    ensures
        lowest_top(heights, cores.push(core), n) == lowest_top(heights, cores, n),
    decreases n,
{
    if n > 0 {
        lemma_lowest_top(heights, cores, core, n - 1);
    }
}

/// Each number of a list as a list of its own.
pub open spec fn one_by_one(order: Seq<usize>) -> Seq<Seq<usize>> {
    order.map_values(|l: usize| seq![l])
}

/// The order in which lines are put into rows: from top to bottom and from left to right.
pub open spec fn row_order(lines: Seq<Spot>, spanning: Seq<usize>, columns: Seq<Seq<usize>>) -> Seq<
    usize,
> {
    sorted_by_keys(spanning + joined_lists(columns), reading_keys(lines))
}

/// No line is lost and none is doubled when the lines of a page are put into rows.
pub proof fn lemma_rows_are_complete<L: Fn(usize, usize, usize) -> bool>(
    level: L,
    lines: Seq<Spot>,
    spanning: Seq<usize>,
    columns: Seq<Seq<usize>>,
    rows: Seq<Seq<usize>>,
)
    requires
        are_lines(level, lines, row_order(lines, spanning, columns), rows),
    ensures
        joined_lists(rows).to_multiset() == spanning.to_multiset().add(
            joined_lists(columns).to_multiset(),
        ),
{
    let all = spanning + joined_lists(columns);
    lemma_sorted_by_keys(all, reading_keys(lines));
    vstd::seq_lib::lemma_multiset_commutative(spanning, joined_lists(columns));
}

/// Whether the columns of a page are read one after the other, given which lines of the shortest
/// have a line beside them.
pub open spec fn has_turns<B: Fn(u32, u32) -> bool>(
    beside: B,
    heights: Seq<Seq<u32>>,
    turns: bool,
) -> bool {
    let counts = line_counts(heights);
    if heights.len() < 2 || least_of(counts) < 15 {
        !turns
    } else {
        exists|answers: Seq<bool>| #[trigger]
            are_beside(beside, heights, shortest(counts), answers) && turns == is_newspaper(
                counts,
                answers,
            )
    }
}

/// Puts the lines of a page with columns into reading order. The lines are given by their spots,
/// that of the first piece of each; those that span columns and those of each column by their
/// numbers. Returns rows; the lines of a row are one line of the page.
///
/// Columns that are read one after the other are; then each line is a row of its own. Otherwise
/// lines at about the same height are a row, by the answer of `level` to the first line of the row,
/// the last, and the line itself.
pub fn group_into_lines_with_thresholds<
    B: Fn(u32, u32) -> bool,
    G: Fn(u32, u32) -> u32,
    W: Fn(u32, u32) -> bool,
    A: Fn(u32, u32) -> bool,
    L: Fn(usize, usize, usize) -> bool,
>(
    lines: &Vec<Spot>,
    spanning: &Vec<usize>,
    columns: &Vec<Vec<usize>>,
    beside: B,
    gap: G,
    wide: W,
    above: A,
    level: L,
) -> (r: Vec<Vec<usize>>)
    requires
        are_lines_of(spanning@, lines@.len()),
        forall|c: int|
            0 <= c < columns@.len() ==> are_lines_of((#[trigger] columns@[c])@, lines@.len()),
        forall|a: u32, b: u32| beside.requires((a, b)),
        forall|a: u32, b: u32| gap.requires((a, b)),
        forall|a: u32, b: u32| wide.requires((a, b)),
        forall|a: u32, b: u32| above.requires((a, b)),
        forall|a: usize, b: usize, c: usize| level.requires((a, b, c)),
    ensures
        exists|turns: bool|
            {
                &&& #[trigger] has_turns(
                    beside,
                    column_heights(lines@, list_contents(columns@)),
                    turns,
                )
                &&& turns ==> exists|
                    cores: Seq<(usize, usize)>,
                    answers: Seq<bool>,
                    order: Seq<usize>,
                |
                    #[trigger] is_read_in_turn(
                        gap,
                        wide,
                        above,
                        lines@,
                        spanning@,
                        list_contents(columns@),
                        cores,
                        answers,
                        order,
                    ) && list_contents(r@) == one_by_one(order)
                &&& !turns ==> are_lines(
                    level,
                    lines@,
                    row_order(lines@, spanning@, list_contents(columns@)),
                    list_contents(r@),
                )
            },
{
    let ghost lists = list_contents(columns@);
    let n: usize = columns.len();
    let mut heights: Vec<Vec<u32>> = Vec::new();
    let mut all: Vec<usize> = Vec::new();
    let mut i: usize = 0;
    while i < spanning.len()
        invariant
            i <= spanning@.len(),
            all@ == spanning@.take(i as int),
        decreases spanning@.len() - i,
    {
        all.push(spanning[i]);
        i = i + 1;
        assert(all@ =~= spanning@.take(i as int));
    }
    assert(all@ =~= spanning@ + joined_lists(lists.take(0))) by {
        assert(lists.take(0) =~= seq![]);
    }
    assert(height_contents(heights@) =~= column_heights(lines@, lists).take(0));
    let mut c: usize = 0;
    while c < n
        invariant
            c <= n == columns@.len(),
            lists == list_contents(columns@),
            are_lines_of(spanning@, lines@.len()),
            forall|k: int|
                0 <= k < columns@.len() ==> are_lines_of((#[trigger] columns@[k])@, lines@.len()),
            are_lines_of(all@, lines@.len()),
            all@ == spanning@ + joined_lists(lists.take(c as int)),
            height_contents(heights@) == column_heights(lines@, lists).take(c as int),
        decreases n - c,
    {
        assert(are_lines_of(columns@[c as int]@, lines@.len()));
        let ghost before = height_contents(heights@);
        let ghost listed = all@;
        let tall = get_heights(lines, &columns[c]);
        let ghost added = tall@;
        heights.push(tall);
        all.extend_from_slice(columns[c].as_slice());
        proof {
            assert(height_contents(heights@) =~= before.push(added));
            assert(all@ =~= listed + columns@[c as int]@);
            assert(lists.take(c + 1).drop_last() =~= lists.take(c as int));
            assert(lists.take(c + 1).last() == columns@[c as int]@);
            assert(all@ =~= spanning@ + joined_lists(lists.take(c + 1)));
            assert forall|k: int| 0 <= k < all@.len() implies (#[trigger] all@[k])
                < lines@.len() by {
                if k < listed.len() {
                    assert(all@[k] == listed[k]);
                } else {
                    assert(all@[k] == columns@[c as int]@[k - listed.len()]);
                }
            }
        }
        c = c + 1;
        assert(height_contents(heights@) =~= column_heights(lines@, lists).take(c as int));
    }
    assert(lists.take(c as int) =~= lists);
    assert(height_contents(heights@) =~= column_heights(lines@, lists));
    let turns = is_newspaper_layout(&heights, beside);
    assert(has_turns(beside, column_heights(lines@, lists), turns));
    if turns {
        let order = read_in_turn(lines, spanning, columns, &heights, &gap, &wide, &above);
        let mut rows: Vec<Vec<usize>> = Vec::new();
        let mut k: usize = 0;
        assert(list_contents(rows@) =~= one_by_one(order@).take(0));
        while k < order.len()
            invariant
                k <= order@.len(),
                list_contents(rows@) == one_by_one(order@).take(k as int),
            decreases order@.len() - k,
        {
            let ghost before = list_contents(rows@);
            let mut row: Vec<usize> = Vec::new();
            row.push(order[k]);
            assert(row@ =~= seq![order@[k as int]]);
            rows.push(row);
            assert(list_contents(rows@) =~= before.push(seq![order@[k as int]]));
            k = k + 1;
            assert(list_contents(rows@) =~= one_by_one(order@).take(k as int));
        }
        assert(list_contents(rows@) =~= one_by_one(order@));
        return rows;
    }
    let keys = get_reading_keys(lines);
    assert(have_keys(all@, keys@)) by {
        assert(keys@.len() == lines@.len());
        assert(are_lines_of(all@, lines@.len()));
    }
    let order = sort_by_keys(&all, &keys);
    assert forall|k: int| 0 <= k < order@.len() implies (#[trigger] order@[k]) < lines@.len() by {
        assert(order@[k] < keys@.len());
    }
    group_in_order(lines, &order, level)
}

} // verus!
