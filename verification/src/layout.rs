//! From pieces of text on a page to lines in reading order.
//!
//! Distances are measured elsewhere, and handed in as answers to questions: whether a piece goes on
//! with a line, whether a gap is wide, whether a line stands above the columns. Positions are real
//! numbers, given by their bits; they are compared here, never computed with.

use crate::numbers::{is_nan, order_key, order_of};
use crate::ordering::{
    count_up, have_keys, indices, lemma_sorted_by_keys, sort_by_keys, sorted_by_keys, yes_count,
};
use crate::spacing::{is_decimal_digit, is_digit};
use crate::tables::{collect_members, is_member, list_contents, members};
use crate::text::{chars_of, trim, trimmed};
use crate::text_utils::{are_rtl, is_rtl_text, slice_contents};
use vstd::prelude::*;
use vstd::slice::slice_subrange;

verus! {

/// Where a piece of text stands. `y` grows upwards.
#[derive(Debug, Clone, Copy, PartialEq, Eq, Structural)]
pub struct Spot {
    pub page: u32,
    pub x: u32,
    pub y: u32,
}

// ---------------------------------------------------------------------------------------------
// Page numbers
// ---------------------------------------------------------------------------------------------

/// Whether a text is a number of one to four digits.
pub open spec fn is_short_number(s: Seq<char>) -> bool {
    let t = trimmed(s);
    1 <= t.len() <= 4 && forall|i: int| 0 <= i < t.len() ==> is_digit(#[trigger] t[i])
}

/// Whether a height lies in the margin of a page: above 720 or below 100. These numbers have the
/// bits `44340000` and `42C80000`.
pub open spec fn is_margin(y: u32) -> bool {
    !is_nan(y) && (0x44340000 < y < 0x8000_0000 || y < 0x42C80000 || y >= 0x8000_0000)
}

/// Whether a piece of text is a page number: a short number in the margin of its page.
pub fn is_page_number(text: &str, y: u32) -> (r: bool)
    ensures
        r == (is_short_number(text@) && is_margin(y)),
{
    let chars = chars_of(text);
    let t = trim(chars.as_slice());
    if t.len() < 1 || t.len() > 4 {
        return false;
    }
    let mut i: usize = 0;
    while i < t.len()
        invariant
            i <= t@.len(),
            t@ == trimmed(text@),
            forall|k: int| 0 <= k < i ==> is_digit(#[trigger] t@[k]),
        decreases t@.len() - i,
    {
        if !is_decimal_digit(t[i]) {
            return false;
        }
        i = i + 1;
    }
    let is_number: bool = !(y / 0x80_0000 % 0x100 == 255 && y % 0x80_0000 > 0);
    is_number && ((y > 0x44340000 && y <= 0x7FFF_FFFF) || y <= 0x42C7FFFF || y >= 0x8000_0000)
}

// ---------------------------------------------------------------------------------------------
// Lines
// ---------------------------------------------------------------------------------------------

/// What the height does from one piece of text to the next.
#[derive(Debug, Clone, Copy, PartialEq, Eq, Structural)]
pub enum Jump {
    /// It jumps up.
    Up,
    /// It jumps down.
    Down,
    /// It stays about the same.
    Level,
}

/// How many jumps are of the given kind.
pub open spec fn jump_count(jumps: Seq<Jump>, kind: Jump) -> nat
    decreases jumps.len(),
{
    if jumps.len() == 0 {
        0
    } else {
        jump_count(jumps.drop_last(), kind) + if jumps.last() == kind {
            1nat
        } else {
            0nat
        }
    }
}

/// Whether the order in which pieces of text come is no reading order: there are at least four
/// steps and three jumps, and more than two in five jumps go up.
pub open spec fn is_chaotic(jumps: Seq<Jump>) -> bool {
    let up = jump_count(jumps, Jump::Up);
    let down = jump_count(jumps, Jump::Down);
    jumps.len() >= 4 && up + down >= 3 && 5 * up > 2 * (up + down)
}

/// Whether pieces of text are sorted by height. `jumps` says what the height does from each to the
/// next.
pub fn should_use_y_sorting(jumps: &Vec<Jump>) -> (r: bool)
    ensures
        r == is_chaotic(jumps@),
{
    let mut up: usize = 0;
    let mut down: usize = 0;
    let mut i: usize = 0;
    assert(jumps@.take(0) =~= seq![]);
    while i < jumps.len()
        invariant
            i <= jumps@.len(),
            up + down <= i,
            up == jump_count(jumps@.take(i as int), Jump::Up),
            down == jump_count(jumps@.take(i as int), Jump::Down),
        decreases jumps@.len() - i,
    {
        assert(jumps@.take(i + 1).drop_last() =~= jumps@.take(i as int));
        match jumps[i] {
            Jump::Up => {
                up = up + 1;
            },
            Jump::Down => {
                down = down + 1;
            },
            Jump::Level => {},
        }
        i = i + 1;
    }
    assert(jumps@.take(i as int) =~= jumps@);
    let total: u128 = up as u128 + down as u128;
    jumps.len() >= 4 && total >= 3 && 5 * up as u128 > 2 * total
}

/// The keys by which pieces of text are sorted from top to bottom and from left to right.
pub open spec fn reading_keys(spots: Seq<Spot>) -> Seq<(i64, i64)> {
    spots.map_values(|s: Spot| ((-order_of(s.y)) as i64, order_of(s.x) as i64))
}

/// The keys by which pieces of text are sorted from top to bottom and from left to right.
pub fn get_reading_keys(spots: &Vec<Spot>) -> (r: Vec<(i64, i64)>)
    ensures
        r@ == reading_keys(spots@),
{
    let mut out: Vec<(i64, i64)> = Vec::new();
    let mut i: usize = 0;
    while i < spots.len()
        invariant
            i <= spots@.len(),
            out@ == reading_keys(spots@).take(i as int),
        decreases spots@.len() - i,
    {
        let s: Spot = spots[i];
        out.push((-order_key(s.y), order_key(s.x)));
        i = i + 1;
        assert(out@ =~= reading_keys(spots@).take(i as int));
    }
    assert(out@ =~= reading_keys(spots@));
    out
}

/// The order in which pieces of text are put into lines: as they come, or from top to bottom.
pub open spec fn line_order(spots: Seq<Spot>, y_sorting: bool) -> Seq<usize> {
    if y_sorting {
        sorted_by_keys(indices(spots.len()), reading_keys(spots))
    } else {
        indices(spots.len())
    }
}

/// The members of lists, one list behind the other.
pub open spec fn joined_lists(lists: Seq<Seq<usize>>) -> Seq<usize>
    decreases lists.len(),
{
    if lists.len() == 0 {
        seq![]
    } else {
        joined_lists(lists.drop_last()) + lists.last()
    }
}

/// Whether a piece goes on with a line, by the answer of `same_line` to the first piece of the
/// line, the last one, and the piece itself.
pub open spec fn goes_on<F: Fn(usize, usize, usize) -> bool>(
    same_line: F,
    spots: Seq<Spot>,
    line: Seq<usize>,
    k: usize,
) -> bool {
    spots[line.first() as int].page == spots[k as int].page && same_line.ensures(
        (line.first(), line.last(), k),
        true,
    )
}

/// Whether a piece does not go on with a line.
pub open spec fn starts_anew<F: Fn(usize, usize, usize) -> bool>(
    same_line: F,
    spots: Seq<Spot>,
    line: Seq<usize>,
    k: usize,
) -> bool {
    spots[line.first() as int].page != spots[k as int].page || same_line.ensures(
        (line.first(), line.last(), k),
        false,
    )
}

/// Whether lines are put together from the given order: each piece goes on with its line, and the
/// first piece of a line does not go on with the line before.
pub open spec fn are_lines<F: Fn(usize, usize, usize) -> bool>(
    same_line: F,
    spots: Seq<Spot>,
    order: Seq<usize>,
    lines: Seq<Seq<usize>>,
) -> bool {
    &&& joined_lists(lines) == order
    &&& forall|l: int| 0 <= l < lines.len() ==> (#[trigger] lines[l]).len() > 0
    &&& forall|l: int, p: int|
        0 <= l < lines.len() && 0 < p < lines[l].len() ==> goes_on(
            same_line,
            spots,
            lines[l].take(p),
            #[trigger] lines[l][p],
        )
    &&& forall|l: int|
        0 < l < lines.len() ==> starts_anew(
            same_line,
            spots,
            lines[l - 1],
            (#[trigger] lines[l])[0],
        )
}

/// Puts pieces of text into lines in the given order: each goes on with the line before it or
/// starts a new one. `same_line` answers, for the first and the last piece of a line on the same
/// page, whether a piece goes on with it.
pub fn group_in_order<F: Fn(usize, usize, usize) -> bool>(
    spots: &Vec<Spot>,
    order: &Vec<usize>,
    same_line: F,
) -> (r: Vec<Vec<usize>>)
    requires
        forall|i: int| 0 <= i < order@.len() ==> (#[trigger] order@[i]) < spots@.len(),
        forall|a: usize, b: usize, c: usize| same_line.requires((a, b, c)),
    ensures
        are_lines(same_line, spots@, order@, list_contents(r@)),
{
    let mut lines: Vec<Vec<usize>> = Vec::new();
    let mut i: usize = 0;
    assert(list_contents(lines@) =~= seq![]);
    assert(order@.take(0) =~= seq![]);
    while i < order.len()
        invariant
            i <= order@.len(),
            forall|k: int| 0 <= k < order@.len() ==> (#[trigger] order@[k]) < spots@.len(),
            forall|a: usize, b: usize, c: usize| same_line.requires((a, b, c)),
            are_lines(same_line, spots@, order@.take(i as int), list_contents(lines@)),
            forall|l: int, p: int|
                0 <= l < lines@.len() && 0 <= p < lines@[l]@.len() ==> (#[trigger] lines@[l]@[p])
                    < spots@.len(),
            i > 0 ==> lines@.len() > 0,
        decreases order@.len() - i,
    {
        let k: usize = order[i];
        let ghost contents = list_contents(lines@);
        assert(order@.take(i + 1) =~= order@.take(i as int).push(k));
        let n: usize = lines.len();
        let joins: bool = if n > 0 {
            assert(contents[n - 1].len() > 0);
            let len: usize = lines[n - 1].len();
            let first: usize = lines[n - 1][0];
            let last: usize = lines[n - 1][len - 1];
            assert(contents[n - 1] == lines@[n - 1]@);
            spots[first].page == spots[k].page && same_line(first, last, k)
        } else {
            false
        };
        if joins {
            let ghost old_line = contents[n - 1];
            let mut line = lines.pop().unwrap();
            line.push(k);
            let ghost new_line = line@;
            lines.push(line);
            let ghost now = list_contents(lines@);
            proof {
                assert(now =~= contents.drop_last().push(old_line.push(k)));
                assert(now.drop_last() =~= contents.drop_last());
                assert(joined_lists(now) =~= joined_lists(contents).push(k));
                assert forall|l: int, p: int|
                    0 <= l < now.len() && 0 < p < now[l].len() implies goes_on(
                    same_line,
                    spots@,
                    now[l].take(p),
                    #[trigger] now[l][p],
                ) by {
                    if l < n - 1 {
                        assert(now[l] == contents[l]);
                        assert(goes_on(same_line, spots@, contents[l].take(p), contents[l][p]));
                    } else if p < old_line.len() {
                        assert(now[l].take(p) =~= contents[l].take(p));
                        assert(now[l][p] == contents[l][p]);
                        assert(goes_on(same_line, spots@, contents[l].take(p), contents[l][p]));
                    } else {
                        assert(now[l].take(p) =~= old_line);
                    }
                }
                assert forall|l: int| 0 < l < now.len() implies starts_anew(
                    same_line,
                    spots@,
                    now[l - 1],
                    (#[trigger] now[l])[0],
                ) by {
                    assert(now[l][0] == contents[l][0]);
                    assert(now[l - 1] == contents[l - 1]);
                    assert(starts_anew(same_line, spots@, contents[l - 1], contents[l][0]));
                }
                assert forall|l: int| 0 <= l < now.len() implies (#[trigger] now[l]).len() > 0 by {
                    assert(contents[l].len() > 0);
                }
                assert forall|l: int, p: int|
                    0 <= l < lines@.len() && 0 <= p < lines@[l]@.len() implies (
                #[trigger] lines@[l]@[p]) < spots@.len() by {
                    if l == n - 1 {
                        assert(lines@[l]@ == old_line.push(k));
                    }
                }
            }
        } else {
            let mut line: Vec<usize> = Vec::new();
            line.push(k);
            assert(line@ =~= seq![k]);
            lines.push(line);
            let ghost now = list_contents(lines@);
            proof {
                assert(now =~= contents.push(seq![k]));
                assert(now.drop_last() =~= contents);
                assert(joined_lists(now) =~= joined_lists(contents).push(k));
                assert forall|l: int, p: int|
                    0 <= l < now.len() && 0 < p < now[l].len() implies goes_on(
                    same_line,
                    spots@,
                    now[l].take(p),
                    #[trigger] now[l][p],
                ) by {
                    assert(now[l] == contents[l]);
                    assert(goes_on(same_line, spots@, contents[l].take(p), contents[l][p]));
                }
                assert forall|l: int| 0 < l < now.len() implies starts_anew(
                    same_line,
                    spots@,
                    now[l - 1],
                    (#[trigger] now[l])[0],
                ) by {
                    assert(now[l - 1] == contents[l - 1]);
                    if l < n {
                        assert(starts_anew(same_line, spots@, contents[l - 1], contents[l][0]));
                    }
                }
                assert forall|l: int| 0 <= l < now.len() implies (#[trigger] now[l]).len() > 0 by {
                    if l < n {
                        assert(contents[l].len() > 0);
                    }
                }
                assert forall|l: int, p: int|
                    0 <= l < lines@.len() && 0 <= p < lines@[l]@.len() implies (
                #[trigger] lines@[l]@[p]) < spots@.len() by {
                    if l == n {
                        assert(lines@[l]@ == seq![k]);
                    }
                }
            }
        }
        i = i + 1;
    }
    assert(order@.take(i as int) =~= order@);
    lines
}

/// Puts pieces of text into lines, in the order in which they come or from top to bottom.
pub fn group_single_column<F: Fn(usize, usize, usize) -> bool>(
    spots: &Vec<Spot>,
    y_sorting: bool,
    same_line: F,
) -> (r: Vec<Vec<usize>>)
    requires
        forall|a: usize, b: usize, c: usize| same_line.requires((a, b, c)),
    ensures
        are_lines(same_line, spots@, line_order(spots@, y_sorting), list_contents(r@)),
{
    let all = count_up(spots.len());
    let order: Vec<usize> = if y_sorting {
        let keys = get_reading_keys(spots);
        sort_by_keys(&all, &keys)
    } else {
        all
    };
    assert(order@ == line_order(spots@, y_sorting));
    assert forall|i: int| 0 <= i < order@.len() implies (#[trigger] order@[i]) < spots@.len() by {
        if y_sorting {
            assert(order@[i] < reading_keys(spots@).len());
        }
    }
    group_in_order(spots, &order, same_line)
}

/// The keys by which the pieces of a line are sorted: from left to right, or from right to left
/// where the line is written so.
pub open spec fn direction_keys(spots: Seq<Spot>, rtl: bool) -> Seq<(i64, i64)> {
    spots.map_values(
        |s: Spot|
            (
                if rtl {
                    (-order_of(s.x)) as i64
                } else {
                    order_of(s.x) as i64
                },
                0i64,
            ),
    )
}

/// Sorts the pieces of a line by its direction.
pub fn sort_line_items(spots: &Vec<Spot>, line: &Vec<usize>, rtl: bool) -> (r: Vec<usize>)
    requires
        forall|i: int| 0 <= i < line@.len() ==> (#[trigger] line@[i]) < spots@.len(),
    ensures
        r@ == sorted_by_keys(line@, direction_keys(spots@, rtl)),
{
    let ghost all = direction_keys(spots@, rtl);
    let mut keys: Vec<(i64, i64)> = Vec::new();
    let mut i: usize = 0;
    while i < spots.len()
        invariant
            i <= spots@.len(),
            all == direction_keys(spots@, rtl),
            keys@ == all.take(i as int),
        decreases spots@.len() - i,
    {
        let x: i64 = order_key(spots[i].x);
        keys.push(
            (
                if rtl {
                    -x
                } else {
                    x
                },
                0,
            ),
        );
        i = i + 1;
        assert(keys@ =~= all.take(i as int));
    }
    assert(keys@ =~= all);
    sort_by_keys(line, &keys)
}

// ---------------------------------------------------------------------------------------------
// Columns
// ---------------------------------------------------------------------------------------------

/// How many of the first `n` ranges cover a bin.
pub open spec fn cover_count(ranges: Seq<(usize, usize)>, n: int, bin: int) -> nat
    decreases n,
{
    if n <= 0 {
        0
    } else {
        cover_count(ranges, n - 1, bin) + if ranges[n - 1].0 <= bin < ranges[n - 1].1 {
            1nat
        } else {
            0nat
        }
    }
}

/// How many ranges cover each bin.
pub open spec fn histogram(bins: nat, ranges: Seq<(usize, usize)>) -> Seq<u32> {
    Seq::new(bins, |b: int| cover_count(ranges, ranges.len() as int, b) as u32)
}

proof fn lemma_cover_count(ranges: Seq<(usize, usize)>, n: int, bin: int)
    requires
        0 <= n,
    ensures
        cover_count(ranges, n, bin) <= n,
    decreases n,
{
    if n > 0 {
        lemma_cover_count(ranges, n - 1, bin);
    }
}

/// Counts how many ranges cover each bin.
pub fn build_histogram(bins: usize, ranges: &Vec<(usize, usize)>) -> (r: Vec<u32>)
    requires
        ranges@.len() <= u32::MAX,
    ensures
        r@ == histogram(bins as nat, ranges@),
{
    let mut out: Vec<u32> = Vec::new();
    let mut b: usize = 0;
    while b < bins
        invariant
            b <= bins,
            ranges@.len() <= u32::MAX,
            out@ == histogram(bins as nat, ranges@).take(b as int),
        decreases bins - b,
    {
        let mut count: u32 = 0;
        let mut i: usize = 0;
        while i < ranges.len()
            invariant
                i <= ranges@.len() <= u32::MAX,
                count <= i,
                count == cover_count(ranges@, i as int, b as int),
            decreases ranges@.len() - i,
        {
            if ranges[i].0 <= b && b < ranges[i].1 {
                count = count + 1;
            }
            i = i + 1;
        }
        proof {
            lemma_cover_count(ranges@, ranges@.len() as int, b as int);
        }
        out.push(count);
        b = b + 1;
        assert(out@ =~= histogram(bins as nat, ranges@).take(b as int));
    }
    assert(out@ =~= histogram(bins as nat, ranges@));
    out
}

/// The largest of the counts; 0 where there are none.
pub open spec fn largest(counts: Seq<u32>) -> u32
    decreases counts.len(),
{
    if counts.len() == 0 {
        0
    } else if counts.last() > largest(counts.drop_last()) {
        counts.last()
    } else {
        largest(counts.drop_last())
    }
}

/// The count up to which a bin is empty: fifteen hundredths of the largest count.
pub open spec fn noise_limit(counts: Seq<u32>) -> u32 {
    (largest(counts) * 15 / 100) as u32
}

/// Whether a bin is empty.
pub open spec fn is_empty_bin(counts: Seq<u32>, limit: u32, b: int) -> bool {
    0 <= b < counts.len() && counts[b] <= limit
}

/// Whether bins form a valley: all of them are empty, and the bins at its sides are not.
pub open spec fn is_valley(counts: Seq<u32>, limit: u32, v: (usize, usize)) -> bool {
    &&& v.0 < v.1 <= counts.len()
    &&& forall|b: int| v.0 <= b < v.1 ==> #[trigger] is_empty_bin(counts, limit, b)
    &&& !is_empty_bin(counts, limit, v.0 - 1)
    &&& !is_empty_bin(counts, limit, v.1 as int)
}

/// Whether a list holds the valleys of counts, from left to right: each entry is one, and each
/// empty bin lies in one of them.
pub open spec fn are_valleys(counts: Seq<u32>, limit: u32, list: Seq<(usize, usize)>) -> bool {
    &&& forall|k: int| 0 <= k < list.len() ==> is_valley(counts, limit, #[trigger] list[k])
    &&& forall|j: int, k: int| 0 <= j < k < list.len() ==> (#[trigger] list[j]).1 < (#[trigger] list[k]).0
    &&& forall|b: int| #[trigger]
        is_empty_bin(counts, limit, b) ==> exists|k: int|
            0 <= k < list.len() && (#[trigger] list[k]).0 <= b < list[k].1
}

/// There is only one list of the valleys of counts.
pub proof fn lemma_valleys_are_unique(
    counts: Seq<u32>,
    limit: u32,
    a: Seq<(usize, usize)>,
    b: Seq<(usize, usize)>,
)
    requires
        are_valleys(counts, limit, a),
        are_valleys(counts, limit, b),
    ensures
        a == b,
{
    lemma_valleys_included(counts, limit, a, b, a.len() as int);
    lemma_valleys_included(counts, limit, b, a, b.len() as int);
    assert(a =~= b);
}

proof fn lemma_same_valley(counts: Seq<u32>, limit: u32, v: (usize, usize), w: (usize, usize), b: int)
    requires
        is_valley(counts, limit, v),
        is_valley(counts, limit, w),
        v.0 <= b < v.1,
        w.0 <= b < w.1,
    ensures
        v == w,
{
    if v.0 < w.0 {
        assert(is_empty_bin(counts, limit, w.0 - 1));
    }
    if w.0 < v.0 {
        assert(is_empty_bin(counts, limit, v.0 - 1));
    }
    if v.1 < w.1 {
        assert(is_empty_bin(counts, limit, v.1 as int));
    }
    if w.1 < v.1 {
        assert(is_empty_bin(counts, limit, w.1 as int));
    }
}

proof fn lemma_valleys_included(
    counts: Seq<u32>,
    limit: u32,
    a: Seq<(usize, usize)>,
    b: Seq<(usize, usize)>,
    n: int,
)
    requires
        are_valleys(counts, limit, a),
        are_valleys(counts, limit, b),
        0 <= n <= a.len(),
    ensures
        n <= b.len(),
        forall|k: int| 0 <= k < n ==> a[k] == b[k],
    decreases n,
{
    if n > 0 {
        lemma_valleys_included(counts, limit, a, b, n - 1);
        let k = n - 1;
        let bin = a[k].0 as int;
        assert(is_valley(counts, limit, a[k]));
        assert(is_empty_bin(counts, limit, bin));
        let m = choose|m: int| 0 <= m < b.len() && (#[trigger] b[m]).0 <= bin < b[m].1;
        lemma_same_valley(counts, limit, a[k], b[m], bin);
        if m < k {
            assert(a[m] == b[m]);
            assert(a[m].1 < a[k].0);
        }
        if m > k {
            let other = b[k].0 as int;
            assert(is_valley(counts, limit, b[k]));
            assert(is_empty_bin(counts, limit, other));
            let j = choose|j: int| 0 <= j < a.len() && (#[trigger] a[j]).0 <= other < a[j].1;
            lemma_same_valley(counts, limit, a[j], b[k], other);
            assert(b[k].1 < b[m].0);
            if j < k {
                assert(a[j] == b[j]);
                assert(b[j].1 < b[k].0);
            }
            if j > k {
                assert(a[k].1 < a[j].0);
            }
        }
    }
}

/// Finds the valleys of counts: the longest runs of bins that are empty.
pub fn find_valleys(counts: &Vec<u32>) -> (r: Vec<(usize, usize)>)
    ensures
        are_valleys(counts@, noise_limit(counts@), r@),
{
    let n: usize = counts.len();
    let mut max: u32 = 0;
    let mut i: usize = 0;
    assert(counts@.take(0) =~= seq![]);
    while i < n
        invariant
            i <= n == counts@.len(),
            max == largest(counts@.take(i as int)),
        decreases n - i,
    {
        assert(counts@.take(i + 1).drop_last() =~= counts@.take(i as int));
        if counts[i] > max {
            max = counts[i];
        }
        i = i + 1;
    }
    assert(counts@.take(i as int) =~= counts@);
    let limit: u32 = (max as u64 * 15 / 100) as u32;
    assert(limit == noise_limit(counts@));
    let mut out: Vec<(usize, usize)> = Vec::new();
    let mut start: Option<usize> = None;
    let mut b: usize = 0;
    while b < n
        invariant
            b <= n == counts@.len(),
            forall|k: int| 0 <= k < out@.len() ==> is_valley(counts@, limit, #[trigger] out@[k]),
            forall|k: int| 0 <= k < out@.len() ==> (#[trigger] out@[k]).1 < b,
            forall|j: int, k: int|
                0 <= j < k < out@.len() ==> (#[trigger] out@[j]).1 < (#[trigger] out@[k]).0,
            start matches Some(s) ==> s < b && !is_empty_bin(counts@, limit, s - 1) && (forall|
                c: int,
            |
                s <= c < b ==> #[trigger] is_empty_bin(counts@, limit, c)) && (forall|k: int|
                0 <= k < out@.len() ==> (#[trigger] out@[k]).1 < s),
            start is None ==> !is_empty_bin(counts@, limit, b - 1),
            forall|c: int|
                c < b && #[trigger] is_empty_bin(counts@, limit, c) ==> (start matches Some(s) && s
                    <= c) || exists|k: int|
                    0 <= k < out@.len() && (#[trigger] out@[k]).0 <= c < out@[k].1,
        decreases n - b,
    {
        let ghost before = out@;
        if counts[b] <= limit {
            assert(is_empty_bin(counts@, limit, b as int));
            if start.is_none() {
                start = Some(b);
            }
        } else {
            assert(!is_empty_bin(counts@, limit, b as int));
            match start {
                Some(s) => {
                    out.push((s, b));
                    start = None;
                    proof {
                        assert(is_valley(counts@, limit, (s, b)));
                        assert forall|c: int|
                            c < b + 1 && #[trigger] is_empty_bin(
                                counts@,
                                limit,
                                c,
                            ) implies exists|k: int|
                            0 <= k < out@.len() && (#[trigger] out@[k]).0 <= c < out@[k].1 by {
                            if s <= c {
                                assert(out@[before.len() as int].0 <= c < out@[before.len() as int].1);
                            } else {
                                let k = choose|k: int|
                                    0 <= k < before.len() && (#[trigger] before[k]).0 <= c
                                        < before[k].1;
                                assert(out@[k] == before[k]);
                            }
                        }
                    }
                },
                None => {},
            }
        }
        b = b + 1;
    }
    match start {
        Some(s) => {
            let ghost before = out@;
            out.push((s, n));
            proof {
                assert(is_valley(counts@, limit, (s, n)));
                assert forall|c: int| #[trigger] is_empty_bin(counts@, limit, c) implies exists|
                    k: int,
                |
                    0 <= k < out@.len() && (#[trigger] out@[k]).0 <= c < out@[k].1 by {
                    if s <= c {
                        assert(out@[before.len() as int].0 <= c < out@[before.len() as int].1);
                    } else {
                        let k = choose|k: int|
                            0 <= k < before.len() && (#[trigger] before[k]).0 <= c < before[k].1;
                        assert(out@[k] == before[k]);
                    }
                }
            }
        },
        None => {},
    }
    out
}

/// What is known of a valley: whether its middle is away from the margins of the page, how many
/// pieces of text are on its left and on its right, and whether the two sides stand side by side.
#[derive(Debug, Clone, Copy, PartialEq, Eq, Structural)]
pub struct ValleyFacts {
    pub is_central: bool,
    pub left: u32,
    pub right: u32,
    pub is_beside: bool,
}

/// Whether a valley may separate columns: it is at least four bins wide and away from the margins,
/// and has at least ten pieces of text on each side, which stand side by side.
pub open spec fn is_gutter(v: (usize, usize), facts: ValleyFacts) -> bool {
    v.1 - v.0 >= 4 && facts.is_central && facts.left >= 10 && facts.right >= 10 && facts.is_beside
}

/// How well a valley separates columns: its width times the lesser number of pieces at its sides.
pub open spec fn gutter_score(v: (usize, usize), facts: ValleyFacts) -> int {
    (v.1 - v.0) * if facts.left <= facts.right {
        facts.left as int
    } else {
        facts.right as int
    }
}

/// Whether a valley of a list may separate columns.
pub open spec fn gutter_at(valleys: Seq<(usize, usize)>, facts: Seq<ValleyFacts>) -> spec_fn(
    usize,
) -> bool {
    |k: usize| is_gutter(valleys[k as int], facts[k as int])
}

/// The keys by which valleys are sorted, the best first.
pub open spec fn score_keys(valleys: Seq<(usize, usize)>, facts: Seq<ValleyFacts>) -> Seq<
    (i64, i64),
> {
    Seq::new(
        valleys.len(),
        |k: int| ((-gutter_score(valleys[k], facts[k])) as i64, 0i64),
    )
}

/// The keys by which valleys are sorted from left to right.
pub open spec fn place_keys(valleys: Seq<(usize, usize)>) -> Seq<(i64, i64)> {
    Seq::new(valleys.len(), |k: int| (valleys[k].0 as i64, 0i64))
}

/// The valleys that separate columns, by their numbers: those that may, from left to right; where
/// there are more than three, the best three.
pub open spec fn gutters(valleys: Seq<(usize, usize)>, facts: Seq<ValleyFacts>) -> Seq<usize> {
    let valid = indices(valleys.len()).filter(gutter_at(valleys, facts));
    if valid.len() <= 3 {
        valid
    } else {
        sorted_by_keys(
            sorted_by_keys(valid, score_keys(valleys, facts)).take(3),
            place_keys(valleys),
        )
    }
}

/// Selects the valleys that separate columns.
pub fn select_gutters(valleys: &Vec<(usize, usize)>, facts: &Vec<ValleyFacts>) -> (r: Vec<usize>)
    requires
        valleys@.len() == facts@.len(),
        forall|k: int|
            0 <= k < valleys@.len() ==> (#[trigger] valleys@[k]).0 <= valleys@[k].1 <= i32::MAX,
        forall|k: int|
            0 <= k < facts@.len() ==> (#[trigger] facts@[k]).left <= i32::MAX && facts@[k].right
                <= i32::MAX,
    ensures
        r@ == gutters(valleys@, facts@),
{
    let ghost wanted = gutter_at(valleys@, facts@);
    let n: usize = valleys.len();
    let mut valid: Vec<usize> = Vec::new();
    let mut scores: Vec<(i64, i64)> = Vec::new();
    let mut places: Vec<(i64, i64)> = Vec::new();
    let mut i: usize = 0;
    assert(indices(0).filter(wanted) =~= seq![]) by {
        reveal(Seq::filter);
    }
    while i < n
        invariant
            i <= n == valleys@.len() == facts@.len(),
            forall|k: int|
                0 <= k < valleys@.len() ==> (#[trigger] valleys@[k]).0 <= valleys@[k].1 <= i32::MAX,
            forall|k: int|
                0 <= k < facts@.len() ==> (#[trigger] facts@[k]).left <= i32::MAX && facts@[k].right
                    <= i32::MAX,
            wanted == gutter_at(valleys@, facts@),
            valid@ == indices(i as nat).filter(wanted),
            forall|k: int| 0 <= k < valid@.len() ==> (#[trigger] valid@[k]) < n,
            scores@ == score_keys(valleys@, facts@).take(i as int),
            places@ == place_keys(valleys@).take(i as int),
        decreases n - i,
    {
        assert(indices((i + 1) as nat) =~= indices(i as nat).push(i));
        assert(indices((i + 1) as nat).drop_last() =~= indices(i as nat));
        reveal(Seq::filter);
        let v: (usize, usize) = valleys[i];
        let f: ValleyFacts = facts[i];
        assert(valleys@[i as int].0 <= valleys@[i as int].1 <= i32::MAX);
        assert(facts@[i as int].left <= i32::MAX && facts@[i as int].right <= i32::MAX);
        let width: i64 = (v.1 - v.0) as i64;
        let lesser: i64 = if f.left <= f.right {
            f.left as i64
        } else {
            f.right as i64
        };
        assert(0 <= width * lesser <= 0x7FFF_FFFF * 0x7FFF_FFFF) by (nonlinear_arith)
            requires
                0 <= width <= 0x7FFF_FFFF,
                0 <= lesser <= 0x7FFF_FFFF,
        ;
        scores.push((-(width * lesser), 0));
        places.push((v.0 as i64, 0));
        if v.1 - v.0 >= 4 && f.is_central && f.left >= 10 && f.right >= 10 && f.is_beside {
            valid.push(i);
        }
        i = i + 1;
        assert(scores@ =~= score_keys(valleys@, facts@).take(i as int));
        assert(places@ =~= place_keys(valleys@).take(i as int));
    }
    assert(scores@ =~= score_keys(valleys@, facts@));
    assert(places@ =~= place_keys(valleys@));
    if valid.len() <= 3 {
        return valid;
    }
    let mut best = sort_by_keys(&valid, &scores);
    proof {
        crate::ordering::lemma_sorted_by_keys(valid@, scores@);
    }
    let ghost all = best@;
    best.truncate(3);
    assert(best@ =~= all.take(3));
    assert forall|k: int| 0 <= k < best@.len() implies (#[trigger] best@[k]) < places@.len() by {
        assert(all[k] < scores@.len());
    }
    sort_by_keys(&best, &places)
}

// ---------------------------------------------------------------------------------------------
// Reading order of columns
// ---------------------------------------------------------------------------------------------

/// Whether `list` are the answers of `facts` to each valley.
pub open spec fn are_facts<F: Fn(usize, usize) -> ValleyFacts>(
    facts: F,
    valleys: Seq<(usize, usize)>,
    list: Seq<ValleyFacts>,
) -> bool {
    list.len() == valleys.len() && forall|k: int|
        0 <= k < list.len() ==> facts.ensures((valleys[k].0, valleys[k].1), #[trigger] list[k])
}

/// Whether gutters are those of a page whose pieces cover the given ranges of bins.
pub open spec fn are_gutters<F: Fn(usize, usize) -> ValleyFacts>(
    facts: F,
    counts: Seq<u32>,
    valleys: Seq<(usize, usize)>,
    list: Seq<ValleyFacts>,
    found: Seq<(usize, usize)>,
) -> bool {
    &&& are_valleys(counts, noise_limit(counts), valleys)
    &&& are_facts(facts, valleys, list)
    &&& found == gutters(valleys, list).map_values(|k: usize| valleys[k as int])
}

proof fn lemma_gutters_below(valleys: Seq<(usize, usize)>, facts: Seq<ValleyFacts>)
    requires
        valleys.len() <= usize::MAX,
    ensures
        forall|i: int|
            0 <= i < gutters(valleys, facts).len() ==> (#[trigger] gutters(valleys, facts)[i])
                < valleys.len(),
{
    let all = indices(valleys.len());
    let valid = all.filter(gutter_at(valleys, facts));
    let keys = score_keys(valleys, facts);
    assert forall|i: int| 0 <= i < valid.len() implies (#[trigger] valid[i]) < valleys.len() by {
        lemma_filter_member(all, gutter_at(valleys, facts), i);
    }
    if valid.len() > 3 {
        let best = sorted_by_keys(valid, keys);
        lemma_sorted_members(valid, keys, valleys.len());
        lemma_sorted_by_keys(valid, keys);
        assert forall|i: int| 0 <= i < best.take(3).len() implies (#[trigger] best.take(3)[i])
            < valleys.len() by {
            assert(best.take(3)[i] == best[i]);
        }
        lemma_sorted_members(best.take(3), place_keys(valleys), valleys.len());
    }
}

/// What a filter leaves is among what it was given.
pub(crate) proof fn lemma_filter_member(list: Seq<usize>, wanted: spec_fn(usize) -> bool, i: int)
    requires
        0 <= i < list.filter(wanted).len(),
    ensures
        list.contains(list.filter(wanted)[i]),
    decreases list.len(),
{
    reveal(Seq::filter);
    if list.len() > 0 {
        let rest = list.drop_last();
        if i < rest.filter(wanted).len() {
            lemma_filter_member(rest, wanted, i);
            let j = choose|j: int| 0 <= j < rest.len() && rest[j] == rest.filter(wanted)[i];
            assert(list[j] == list.filter(wanted)[i]);
        } else {
            assert(list[list.len() - 1] == list.filter(wanted)[i]);
        }
    }
}

/// What is sorted stays below the same limit.
pub(crate) proof fn lemma_sorted_members(list: Seq<usize>, keys: Seq<(i64, i64)>, n: nat)
    requires
        forall|i: int| 0 <= i < list.len() ==> (#[trigger] list[i]) < n,
    ensures
        forall|i: int|
            0 <= i < sorted_by_keys(list, keys).len() ==> (#[trigger] sorted_by_keys(list, keys)[i])
                < n,
{
    broadcast use vstd::seq_lib::group_to_multiset_ensures;

    let sorted = sorted_by_keys(list, keys);
    lemma_sorted_by_keys(list, keys);
    assert forall|i: int| 0 <= i < sorted.len() implies (#[trigger] sorted[i]) < n by {
        assert(sorted.contains(sorted[i]));
        assert(sorted.to_multiset().count(sorted[i]) > 0);
        assert(list.to_multiset().count(sorted[i]) > 0);
        assert(list.contains(sorted[i]));
    }
}

/// Finds the gutters between the columns of a page, as ranges of bins from left to right. The
/// pieces of text cover the given ranges of bins; `facts` tells what is known of a valley. A page
/// that is not wide or has fewer than 20 pieces has no gutters.
pub fn detect_columns<F: Fn(usize, usize) -> ValleyFacts>(
    pieces: usize,
    is_wide: bool,
    bins: usize,
    ranges: &Vec<(usize, usize)>,
    facts: F,
) -> (r: Vec<(usize, usize)>)
    requires
        ranges@.len() <= u32::MAX,
        bins <= i32::MAX,
        forall|s: usize, e: usize| facts.requires((s, e)),
        forall|s: usize, e: usize, f: ValleyFacts| #[trigger]
            facts.ensures((s, e), f) ==> f.left <= i32::MAX && f.right <= i32::MAX,
    ensures
        pieces < 20 || !is_wide ==> r@.len() == 0,
        pieces >= 20 && is_wide ==> exists|valleys: Seq<(usize, usize)>, list: Seq<ValleyFacts>|
            #[trigger] are_gutters(facts, histogram(bins as nat, ranges@), valleys, list, r@),
{
    let mut found: Vec<(usize, usize)> = Vec::new();
    if pieces < 20 || !is_wide {
        return found;
    }
    let counts = build_histogram(bins, ranges);
    let valleys = find_valleys(&counts);
    let mut list: Vec<ValleyFacts> = Vec::new();
    let mut i: usize = 0;
    while i < valleys.len()
        invariant
            i <= valleys@.len(),
            forall|s: usize, e: usize| facts.requires((s, e)),
            list@.len() == i,
            forall|k: int|
                0 <= k < i ==> facts.ensures(
                    (valleys@[k].0, valleys@[k].1),
                    #[trigger] list@[k],
                ),
        decreases valleys@.len() - i,
    {
        let (s, e) = valleys[i];
        list.push(facts(s, e));
        i = i + 1;
    }
    assert forall|k: int| 0 <= k < valleys@.len() implies (#[trigger] valleys@[k]).0
        <= valleys@[k].1 <= i32::MAX by {
        assert(is_valley(counts@, noise_limit(counts@), valleys@[k]));
    }
    let chosen = select_gutters(&valleys, &list);
    proof {
        lemma_gutters_below(valleys@, list@);
    }
    let ghost all = gutters(valleys@, list@).map_values(|k: usize| valleys@[k as int]);
    let mut k: usize = 0;
    while k < chosen.len()
        invariant
            k <= chosen@.len(),
            chosen@ == gutters(valleys@, list@),
            forall|j: int| 0 <= j < chosen@.len() ==> (#[trigger] chosen@[j]) < valleys@.len(),
            all == chosen@.map_values(|k: usize| valleys@[k as int]),
            found@ == all.take(k as int),
        decreases chosen@.len() - k,
    {
        found.push(valleys[chosen[k]]);
        k = k + 1;
        assert(found@ =~= all.take(k as int));
    }
    assert(found@ =~= all);
    assert(are_gutters(facts, counts@, valleys@, list@, found@));
    found
}

/// The least of the counts.
pub open spec fn least_of(counts: Seq<usize>) -> usize
    decreases counts.len(),
{
    if counts.len() <= 1 {
        counts[0]
    } else if counts.last() < least_of(counts.drop_last()) {
        counts.last()
    } else {
        least_of(counts.drop_last())
    }
}

/// The greatest of the counts.
pub open spec fn greatest_of(counts: Seq<usize>) -> usize
    decreases counts.len(),
{
    if counts.len() <= 1 {
        counts[0]
    } else if counts.last() > greatest_of(counts.drop_last()) {
        counts.last()
    } else {
        greatest_of(counts.drop_last())
    }
}

/// Whether columns are read one after the other, given the number of lines of each and, for the
/// lines of the shortest, whether another column has a line at the same height. Each column has at
/// least 15 lines; then columns of similar length are, and others are where more than half of the
/// lines of the shortest have a line beside them.
pub open spec fn is_newspaper(counts: Seq<usize>, beside: Seq<bool>) -> bool {
    &&& counts.len() >= 2
    &&& least_of(counts) >= 15
    &&& 10 * least_of(counts) > 7 * greatest_of(counts) || 2 * yes_count(beside) > least_of(counts)
}

/// The number of lines of each column.
pub open spec fn line_counts(columns: Seq<Seq<u32>>) -> Seq<usize> {
    columns.map_values(|c: Seq<u32>| c.len() as usize)
}

/// Lists of real numbers as they are held, as plain contents.
pub open spec fn height_contents(columns: Seq<Vec<u32>>) -> Seq<Seq<u32>> {
    columns.map_values(|c: Vec<u32>| c@)
}

/// The first of the columns with the fewest lines.
pub open spec fn shortest(counts: Seq<usize>) -> int
    decreases counts.len(),
{
    if counts.len() <= 1 {
        0
    } else if counts.last() < least_of(counts.drop_last()) {
        counts.len() - 1
    } else {
        shortest(counts.drop_last())
    }
}

/// Whether a column other than `s` has a line that is beside a line at height `y`.
pub open spec fn has_line_beside<F: Fn(u32, u32) -> bool>(
    beside: F,
    columns: Seq<Seq<u32>>,
    s: int,
    y: u32,
) -> bool {
    exists|c: int, l: int|
        0 <= c < columns.len() && c != s && 0 <= l < columns[c].len() && beside.ensures(
            (#[trigger] columns[c][l], y),
            true,
        )
}

/// Whether no line of the columns other than `s` is beside a line at height `y`.
pub open spec fn has_no_line_beside<F: Fn(u32, u32) -> bool>(
    beside: F,
    columns: Seq<Seq<u32>>,
    s: int,
    y: u32,
) -> bool {
    forall|c: int, l: int|
        0 <= c < columns.len() && c != s && 0 <= l < columns[c].len() ==> beside.ensures(
            (#[trigger] columns[c][l], y),
            false,
        )
}

/// Whether answers say of each line of column `s` whether another column has a line beside it.
pub open spec fn are_beside<F: Fn(u32, u32) -> bool>(
    beside: F,
    columns: Seq<Seq<u32>>,
    s: int,
    answers: Seq<bool>,
) -> bool {
    answers.len() == columns[s].len() && forall|i: int|
        0 <= i < answers.len() ==> if #[trigger] answers[i] {
            has_line_beside(beside, columns, s, columns[s][i])
        } else {
            has_no_line_beside(beside, columns, s, columns[s][i])
        }
}

/// Whether a column other than `s` has a line beside a line at height `y`.
fn find_line_beside<F: Fn(u32, u32) -> bool>(
    beside: &F,
    columns: &Vec<Vec<u32>>,
    s: usize,
    y: u32,
) -> (r: bool)
    requires
        forall|a: u32, b: u32| beside.requires((a, b)),
    ensures
        r ==> has_line_beside(*beside, height_contents(columns@), s as int, y),
        !r ==> has_no_line_beside(*beside, height_contents(columns@), s as int, y),
{
    let ghost all = height_contents(columns@);
    let mut c: usize = 0;
    while c < columns.len()
        invariant
            c <= columns@.len(),
            all == height_contents(columns@),
            forall|a: u32, b: u32| beside.requires((a, b)),
            forall|d: int, l: int|
                0 <= d < c && d != s && 0 <= l < all[d].len() ==> beside.ensures(
                    (#[trigger] all[d][l], y),
                    false,
                ),
        decreases columns@.len() - c,
    {
        if c != s {
            let mut l: usize = 0;
            while l < columns[c].len()
                invariant
                    c < columns@.len(),
                    c != s,
                    l <= columns@[c as int]@.len(),
                    all == height_contents(columns@),
                    forall|a: u32, b: u32| beside.requires((a, b)),
                    forall|k: int|
                        0 <= k < l ==> beside.ensures((#[trigger] all[c as int][k], y), false),
                decreases columns@[c as int]@.len() - l,
            {
                assert(all[c as int][l as int] == columns@[c as int]@[l as int]);
                let found: bool = beside(columns[c][l], y);
                if found {
                    return true;
                }
                l = l + 1;
            }
        }
        c = c + 1;
    }
    false
}

/// Whether columns are read one after the other. The columns are given by the heights of their
/// lines, real numbers by their bits; `beside` answers of two heights whether they are about the
/// same.
pub fn is_newspaper_layout<F: Fn(u32, u32) -> bool>(columns: &Vec<Vec<u32>>, beside: F) -> (r: bool)
    requires
        forall|a: u32, b: u32| beside.requires((a, b)),
    ensures
        columns@.len() < 2 || least_of(line_counts(height_contents(columns@))) < 15 ==> !r,
        columns@.len() >= 2 && least_of(line_counts(height_contents(columns@))) >= 15 ==> exists|answers: Seq<bool>|
            {
                &&& #[trigger] are_beside(
                    beside,
                    height_contents(columns@),
                    shortest(line_counts(height_contents(columns@))),
                    answers,
                )
                &&& r == is_newspaper(line_counts(height_contents(columns@)), answers)
            },
{
    if columns.len() < 2 {
        return false;
    }
    let ghost all = height_contents(columns@);
    let ghost counts = line_counts(all);
    let mut short: usize = 0;
    let mut least: usize = columns[0].len();
    let mut greatest: usize = columns[0].len();
    let mut i: usize = 1;
    assert(counts.take(1).len() == 1);
    while i < columns.len()
        invariant
            1 <= i <= columns@.len(),
            all == height_contents(columns@),
            counts == line_counts(all),
            short == shortest(counts.take(i as int)),
            short < i,
            least == columns@[short as int]@.len(),
            least == least_of(counts.take(i as int)),
            greatest == greatest_of(counts.take(i as int)),
        decreases columns@.len() - i,
    {
        assert(counts.take(i + 1).drop_last() =~= counts.take(i as int));
        let count: usize = columns[i].len();
        if count < least {
            least = count;
            short = i;
        }
        if count > greatest {
            greatest = count;
        }
        i = i + 1;
    }
    assert(counts.take(i as int) =~= counts);
    if least < 15 {
        return false;
    }
    let ghost mut answers: Seq<bool> = seq![];
    let mut yes: usize = 0;
    let mut k: usize = 0;
    while k < least
        invariant
            k <= least,
            short < columns@.len(),
            least == columns@[short as int]@.len(),
            all == height_contents(columns@),
            forall|a: u32, b: u32| beside.requires((a, b)),
            answers.len() == k,
            forall|j: int|
                0 <= j < answers.len() ==> if #[trigger] answers[j] {
                    has_line_beside(beside, all, short as int, all[short as int][j])
                } else {
                    has_no_line_beside(beside, all, short as int, all[short as int][j])
                },
            yes <= k,
            yes == yes_count(answers),
        decreases least - k,
    {
        let answer: bool = find_line_beside(&beside, columns, short, columns[short][k]);
        let ghost before = answers;
        proof {
            answers = answers.push(answer);
            assert(answers.drop_last() =~= before);
        }
        if answer {
            yes = yes + 1;
        }
        k = k + 1;
    }
    assert(are_beside(beside, all, short as int, answers));
    10 * least as u128 > 7 * greatest as u128 || 2 * yes as u128 > least as u128
}

/// Whether lines form a block: there is no wide gap inside it, and there is one, or the end, at
/// each of its sides. `wide` says of each line but the last whether a wide gap follows it.
pub open spec fn is_block(wide: Seq<bool>, n: int, s: int, e: int) -> bool {
    &&& 0 <= s < e <= n
    &&& s == 0 || wide[s - 1]
    &&& e == n || wide[e - 1]
    &&& forall|k: int| s <= k < e - 1 ==> !(#[trigger] wide[k])
}

/// Whether a block is the core of a column: no block is longer, and none behind it is as long.
pub open spec fn is_core(wide: Seq<bool>, n: int, s: int, e: int) -> bool {
    &&& is_block(wide, n, s, e)
    &&& forall|a: int, b: int| #[trigger]
        is_block(wide, n, a, b) ==> b - a <= e - s && (a > s ==> b - a < e - s)
}

/// Finds the core of a column of `n` lines, the longest block between wide gaps. The lines outside
/// it are stragglers. A column of fewer than three lines is all core.
pub fn split_column_stragglers(n: usize, wide: &Vec<bool>) -> (r: (usize, usize))
    requires
        n >= 3 ==> wide@.len() == n - 1,
    ensures
        n < 3 ==> r == (0usize, n),
        n >= 3 ==> is_core(wide@, n as int, r.0 as int, r.1 as int),
{
    if n < 3 {
        return (0, n);
    }
    let mut best: (usize, usize) = (0, 0);
    let mut start: usize = 0;
    let mut i: usize = 0;
    while i < n
        invariant
            i <= n,
            wide@.len() == n - 1,
            start <= i,
            start < n ==> start == 0 || wide@[start - 1],
            i < n ==> start < n,
            forall|k: int| start <= k < i ==> k < n - 1 ==> !(#[trigger] wide@[k]),
            best.0 <= best.1 <= start,
            start > 0 ==> is_block(wide@, n as int, best.0 as int, best.1 as int),
            start == 0 ==> best == (0usize, 0usize),
            i == n ==> start == n,
            forall|a: int, b: int| #[trigger]
                is_block(wide@, n as int, a, b) && a < start ==> b - a <= best.1 - best.0 && (a
                    > best.0 ==> b - a < best.1 - best.0),
        decreases n - i,
    {
        if i == n - 1 || wide[i] {
            let e: usize = i + 1;
            let ghost old_best = best;
            let ghost old_start = start;
            assert(is_block(wide@, n as int, start as int, e as int));
            if e - start >= best.1 - best.0 {
                best = (start, e);
            }
            proof {
                assert forall|a: int, b: int| #[trigger]
                    is_block(wide@, n as int, a, b) && a < e implies b - a <= best.1 - best.0 && (a
                    > best.0 ==> b - a < best.1 - best.0) by {
                    if a >= old_start {
                        lemma_block_within(wide@, n as int, old_start as int, e as int, a, b);
                    } else {
                        assert(b - a <= old_best.1 - old_best.0);
                    }
                }
            }
            start = e;
        }
        i = i + 1;
    }
    best
}

proof fn lemma_block_within(wide: Seq<bool>, n: int, s: int, e: int, a: int, b: int)
    requires
        is_block(wide, n, s, e),
        is_block(wide, n, a, b),
        s <= a < e,
    ensures
        a == s && b == e,
{
    if a > s {
        assert(wide[a - 1]);
        assert(!wide[a - 1]);
    }
    if b < e {
        assert(wide[b - 1]);
    }
    if b > e {
        assert(wide[e - 1]);
    }
}

/// Whether a line stands above the columns, or not, as asked.
pub open spec fn is_where(above: Seq<bool>, wanted: bool) -> spec_fn(usize) -> bool {
    |l: usize| above[l as int] == wanted
}

/// The lines of a column outside its core.
pub open spec fn outside(column: Seq<usize>, core: (usize, usize)) -> Seq<usize> {
    column.take(core.0 as int) + column.skip(core.1 as int)
}

/// The stragglers of the first `n` columns that stand above the columns, or not, as asked.
pub open spec fn stragglers(
    columns: Seq<Seq<usize>>,
    cores: Seq<(usize, usize)>,
    above: Seq<bool>,
    wanted: bool,
    n: int,
) -> Seq<usize>
    decreases n,
{
    if n <= 0 {
        seq![]
    } else {
        stragglers(columns, cores, above, wanted, n - 1) + outside(
            columns[n - 1],
            cores[n - 1],
        ).filter(is_where(above, wanted))
    }
}

/// The cores of the first `n` columns, one behind the other.
pub open spec fn joined_cores(columns: Seq<Seq<usize>>, cores: Seq<(usize, usize)>, n: int) -> Seq<
    usize,
>
    decreases n,
{
    if n <= 0 {
        seq![]
    } else {
        joined_cores(columns, cores, n - 1) + columns[n - 1].subrange(
            cores[n - 1].0 as int,
            cores[n - 1].1 as int,
        )
    }
}

/// The keys by which lines are sorted from top to bottom.
pub open spec fn height_keys(heights: Seq<u32>) -> Seq<(i64, i64)> {
    heights.map_values(|y: u32| ((-order_of(y)) as i64, 0i64))
}

/// Whether answers are those of `above` to each height and the top of the columns.
pub open spec fn are_answers_above<F: Fn(u32, u32) -> bool>(
    above: F,
    heights: Seq<u32>,
    top: u32,
    answers: Seq<bool>,
) -> bool {
    answers.len() == heights.len() && forall|i: int|
        0 <= i < answers.len() ==> above.ensures((heights[i], top), #[trigger] answers[i])
}

/// The reading order of a page with columns that are read one after the other: what stands above
/// the columns, from top to bottom; the cores of the columns; what is left of each column; and the
/// other lines that span the columns, from top to bottom.
pub open spec fn newspaper_order(
    spanning: Seq<usize>,
    columns: Seq<Seq<usize>>,
    cores: Seq<(usize, usize)>,
    above: Seq<bool>,
    heights: Seq<u32>,
) -> Seq<usize> {
    let n = columns.len() as int;
    let keys = height_keys(heights);
    sorted_by_keys(
        spanning.filter(is_where(above, true)) + stragglers(columns, cores, above, true, n),
        keys,
    ) + joined_cores(columns, cores, n) + stragglers(columns, cores, above, false, n)
        + sorted_by_keys(spanning.filter(is_where(above, false)), keys)
}

/// Those of the lines that stand above the columns, or not, as asked.
fn select_where(list: &[usize], above: &Vec<bool>, wanted: bool) -> (r: Vec<usize>)
    requires
        forall|i: int| 0 <= i < list@.len() ==> (#[trigger] list@[i]) < above@.len(),
    ensures
        r@ == list@.filter(is_where(above@, wanted)),
        forall|i: int| 0 <= i < r@.len() ==> (#[trigger] r@[i]) < above@.len(),
{
    let ghost pred = is_where(above@, wanted);
    let mut out: Vec<usize> = Vec::new();
    let mut i: usize = 0;
    assert(list@.take(0).filter(pred) =~= seq![]) by {
        reveal(Seq::filter);
    }
    while i < list.len()
        invariant
            i <= list@.len(),
            forall|k: int| 0 <= k < list@.len() ==> (#[trigger] list@[k]) < above@.len(),
            pred == is_where(above@, wanted),
            out@ == list@.take(i as int).filter(pred),
            forall|k: int| 0 <= k < out@.len() ==> (#[trigger] out@[k]) < above@.len(),
        decreases list@.len() - i,
    {
        assert(list@.take(i + 1).drop_last() =~= list@.take(i as int));
        reveal(Seq::filter);
        let l: usize = list[i];
        if above[l] == wanted {
            out.push(l);
        }
        i = i + 1;
    }
    assert(list@.take(i as int) =~= list@);
    out
}

/// The lines of a column outside its core.
fn get_outside(column: &Vec<usize>, core: (usize, usize)) -> (r: Vec<usize>)
    requires
        core.0 <= core.1 <= column@.len(),
    ensures
        r@ == outside(column@, core),
{
    let mut out: Vec<usize> = Vec::new();
    out.extend_from_slice(slice_subrange(column.as_slice(), 0, core.0));
    assert(out@ =~= column@.take(core.0 as int));
    out.extend_from_slice(slice_subrange(column.as_slice(), core.1, column.len()));
    assert(out@ =~= outside(column@, core));
    out
}

/// The stragglers that stand above the columns, or not, as asked.
fn get_stragglers(
    columns: &Vec<Vec<usize>>,
    cores: &Vec<(usize, usize)>,
    above: &Vec<bool>,
    wanted: bool,
) -> (r: Vec<usize>)
    requires
        columns@.len() == cores@.len(),
        forall|c: int|
            0 <= c < columns@.len() ==> (#[trigger] cores@[c]).0 <= cores@[c].1
                <= columns@[c]@.len(),
        forall|c: int, i: int|
            0 <= c < columns@.len() && 0 <= i < columns@[c]@.len() ==> (
            #[trigger] columns@[c]@[i]) < above@.len(),
    ensures
        r@ == stragglers(
            list_contents(columns@),
            cores@,
            above@,
            wanted,
            columns@.len() as int,
        ),
        forall|i: int| 0 <= i < r@.len() ==> (#[trigger] r@[i]) < above@.len(),
{
    let ghost lists = list_contents(columns@);
    let mut out: Vec<usize> = Vec::new();
    let mut c: usize = 0;
    assert(out@ =~= seq![]);
    while c < columns.len()
        invariant
            c <= columns@.len(),
            columns@.len() == cores@.len(),
            forall|d: int|
                0 <= d < columns@.len() ==> (#[trigger] cores@[d]).0 <= cores@[d].1
                    <= columns@[d]@.len(),
            forall|d: int, i: int|
                0 <= d < columns@.len() && 0 <= i < columns@[d]@.len() ==> (
                #[trigger] columns@[d]@[i]) < above@.len(),
            lists == list_contents(columns@),
            out@ == stragglers(lists, cores@, above@, wanted, c as int),
            forall|i: int| 0 <= i < out@.len() ==> (#[trigger] out@[i]) < above@.len(),
        decreases columns@.len() - c,
    {
        assert(cores@[c as int].0 <= cores@[c as int].1 <= columns@[c as int]@.len());
        assert(lists[c as int] == columns@[c as int]@);
        let rest = get_outside(&columns[c], cores[c]);
        assert forall|i: int| 0 <= i < rest@.len() implies (#[trigger] rest@[i]) < above@.len() by {
            let column = columns@[c as int]@;
            let core = cores@[c as int];
            if i < core.0 {
                assert(rest@[i] == column[i]);
            } else {
                assert(rest@[i] == column[i - core.0 + core.1]);
            }
        }
        let mut chosen = select_where(rest.as_slice(), above, wanted);
        let ghost before = out@;
        let ghost added = chosen@;
        out.append(&mut chosen);
        assert(out@ =~= before + added);
        c = c + 1;
    }
    out
}

/// Sorts lines from top to bottom.
fn sort_by_height(list: &Vec<usize>, heights: &Vec<u32>) -> (r: Vec<usize>)
    requires
        forall|i: int| 0 <= i < list@.len() ==> (#[trigger] list@[i]) < heights@.len(),
    ensures
        r@ == sorted_by_keys(list@, height_keys(heights@)),
{
    let mut keys: Vec<(i64, i64)> = Vec::new();
    let mut i: usize = 0;
    while i < heights.len()
        invariant
            i <= heights@.len(),
            keys@ == height_keys(heights@).take(i as int),
        decreases heights@.len() - i,
    {
        keys.push((-order_key(heights[i]), 0));
        i = i + 1;
        assert(keys@ =~= height_keys(heights@).take(i as int));
    }
    assert(keys@ =~= height_keys(heights@));
    sort_by_keys(list, &keys)
}

/// Puts the lines of a page with columns into reading order. Lines are given by number: those that
/// span the columns, and those of each column with its core. `above` says of each line whether it
/// stands above the columns, `heights` where it stands.
pub fn arrange_newspaper(
    spanning: &Vec<usize>,
    columns: &Vec<Vec<usize>>,
    cores: &Vec<(usize, usize)>,
    above: &Vec<bool>,
    heights: &Vec<u32>,
) -> (r: Vec<usize>)
    requires
        above@.len() == heights@.len(),
        columns@.len() == cores@.len(),
        forall|c: int|
            0 <= c < columns@.len() ==> (#[trigger] cores@[c]).0 <= cores@[c].1
                <= columns@[c]@.len(),
        forall|i: int| 0 <= i < spanning@.len() ==> (#[trigger] spanning@[i]) < above@.len(),
        forall|c: int, i: int|
            0 <= c < columns@.len() && 0 <= i < columns@[c]@.len() ==> (
            #[trigger] columns@[c]@[i]) < above@.len(),
    ensures
        r@ == newspaper_order(
            spanning@,
            list_contents(columns@),
            cores@,
            above@,
            heights@,
        ),
{
    let ghost lists = list_contents(columns@);
    let mut top = select_where(spanning.as_slice(), above, true);
    let mut over = get_stragglers(columns, cores, above, true);
    let ghost first = top@;
    let ghost second = over@;
    top.append(&mut over);
    assert(top@ =~= first + second);
    assert forall|i: int| 0 <= i < top@.len() implies (#[trigger] top@[i]) < heights@.len() by {
        if i < first.len() {
            assert(top@[i] == first[i]);
        } else {
            assert(top@[i] == second[i - first.len()]);
        }
    }
    let mut out = sort_by_height(&top, heights);
    let ghost start = out@;
    let mut c: usize = 0;
    assert(out@ =~= start + joined_cores(lists, cores@, 0));
    while c < columns.len()
        invariant
            c <= columns@.len(),
            columns@.len() == cores@.len(),
            forall|d: int|
                0 <= d < columns@.len() ==> (#[trigger] cores@[d]).0 <= cores@[d].1
                    <= columns@[d]@.len(),
            lists == list_contents(columns@),
            out@ == start + joined_cores(lists, cores@, c as int),
        decreases columns@.len() - c,
    {
        assert(cores@[c as int].0 <= cores@[c as int].1 <= columns@[c as int]@.len());
        let core: (usize, usize) = cores[c];
        let ghost before = out@;
        out.extend_from_slice(slice_subrange(columns[c].as_slice(), core.0, core.1));
        assert(out@ =~= start + joined_cores(lists, cores@, c + 1));
        c = c + 1;
    }
    let ghost middle = out@;
    let mut under = get_stragglers(columns, cores, above, false);
    let ghost third = under@;
    out.append(&mut under);
    assert(out@ =~= middle + third);
    let rest = select_where(spanning.as_slice(), above, false);
    let mut bottom = sort_by_height(&rest, heights);
    let ghost fourth = bottom@;
    out.append(&mut bottom);
    assert(out@ =~= middle + third + fourth);
    out
}

proof fn lemma_filter_split(list: Seq<usize>, above: Seq<bool>)
    ensures
        list.to_multiset() == list.filter(is_where(above, true)).to_multiset().add(
            list.filter(is_where(above, false)).to_multiset(),
        ),
    decreases list.len(),
{
    broadcast use vstd::seq_lib::group_to_multiset_ensures;

    let yes = list.filter(is_where(above, true)).to_multiset();
    let no = list.filter(is_where(above, false)).to_multiset();
    reveal(Seq::filter);
    if list.len() == 0 {
        assert(list.to_multiset() =~= yes.add(no));
    } else {
        lemma_filter_split(list.drop_last(), above);
        assert(list.drop_last().push(list.last()) =~= list);
        assert(list.to_multiset() =~= yes.add(no));
    }
}

proof fn lemma_column_split(column: Seq<usize>, core: (usize, usize))
    requires
        core.0 <= core.1 <= column.len(),
    ensures
        column.to_multiset() == outside(column, core).to_multiset().add(
            column.subrange(core.0 as int, core.1 as int).to_multiset(),
        ),
{
    let a = column.take(core.0 as int);
    let b = column.subrange(core.0 as int, core.1 as int);
    let c = column.skip(core.1 as int);
    assert(column =~= a + b + c);
    vstd::seq_lib::lemma_multiset_commutative(a + b, c);
    vstd::seq_lib::lemma_multiset_commutative(a, b);
    vstd::seq_lib::lemma_multiset_commutative(a, c);
    assert(column.to_multiset() =~= outside(column, core).to_multiset().add(b.to_multiset()));
}

proof fn lemma_columns_complete(
    columns: Seq<Seq<usize>>,
    cores: Seq<(usize, usize)>,
    above: Seq<bool>,
    n: int,
)
    requires
        0 <= n <= columns.len(),
        columns.len() == cores.len(),
        forall|c: int|
            0 <= c < columns.len() ==> (#[trigger] cores[c]).0 <= cores[c].1 <= columns[c].len(),
    ensures
        joined_lists(columns.take(n)).to_multiset() == stragglers(
            columns,
            cores,
            above,
            true,
            n,
        ).to_multiset().add(joined_cores(columns, cores, n).to_multiset()).add(
            stragglers(columns, cores, above, false, n).to_multiset(),
        ),
    decreases n,
{
    broadcast use vstd::seq_lib::group_to_multiset_ensures;

    let all = joined_lists(columns.take(n)).to_multiset();
    let up = stragglers(columns, cores, above, true, n).to_multiset();
    let core = joined_cores(columns, cores, n).to_multiset();
    let down = stragglers(columns, cores, above, false, n).to_multiset();
    if n == 0 {
        assert(all =~= up.add(core).add(down));
    } else {
        lemma_columns_complete(columns, cores, above, n - 1);
        assert(columns.take(n).drop_last() =~= columns.take(n - 1));
        let column = columns[n - 1];
        let range = cores[n - 1];
        assert(cores[n - 1].0 <= cores[n - 1].1 <= columns[n - 1].len());
        let rest = outside(column, range);
        lemma_column_split(column, range);
        lemma_filter_split(rest, above);
        vstd::seq_lib::lemma_multiset_commutative(joined_lists(columns.take(n - 1)), column);
        vstd::seq_lib::lemma_multiset_commutative(
            stragglers(columns, cores, above, true, n - 1),
            rest.filter(is_where(above, true)),
        );
        vstd::seq_lib::lemma_multiset_commutative(
            stragglers(columns, cores, above, false, n - 1),
            rest.filter(is_where(above, false)),
        );
        vstd::seq_lib::lemma_multiset_commutative(
            joined_cores(columns, cores, n - 1),
            column.subrange(range.0 as int, range.1 as int),
        );
        assert(all =~= up.add(core).add(down));
    }
}

/// No line is lost and none is doubled when the lines of a page are put into reading order.
pub proof fn lemma_newspaper_order_is_complete(
    spanning: Seq<usize>,
    columns: Seq<Seq<usize>>,
    cores: Seq<(usize, usize)>,
    above: Seq<bool>,
    heights: Seq<u32>,
)
    requires
        columns.len() == cores.len(),
        forall|c: int|
            0 <= c < columns.len() ==> (#[trigger] cores[c]).0 <= cores[c].1 <= columns[c].len(),
    ensures
        newspaper_order(spanning, columns, cores, above, heights).to_multiset()
            == spanning.to_multiset().add(joined_lists(columns).to_multiset()),
{
    let n = columns.len() as int;
    let keys = height_keys(heights);
    let first = spanning.filter(is_where(above, true));
    let second = stragglers(columns, cores, above, true, n);
    let third = joined_cores(columns, cores, n);
    let fourth = stragglers(columns, cores, above, false, n);
    let fifth = spanning.filter(is_where(above, false));
    let top = sorted_by_keys(first + second, keys);
    let bottom = sorted_by_keys(fifth, keys);
    crate::ordering::lemma_sorted_by_keys(first + second, keys);
    crate::ordering::lemma_sorted_by_keys(fifth, keys);
    lemma_filter_split(spanning, above);
    lemma_columns_complete(columns, cores, above, n);
    assert(columns.take(n) =~= columns);
    vstd::seq_lib::lemma_multiset_commutative(first, second);
    vstd::seq_lib::lemma_multiset_commutative(top, third);
    vstd::seq_lib::lemma_multiset_commutative(top + third, fourth);
    vstd::seq_lib::lemma_multiset_commutative(top + third + fourth, bottom);
    assert(newspaper_order(spanning, columns, cores, above, heights).to_multiset()
        =~= spanning.to_multiset().add(joined_lists(columns).to_multiset()));
}

/// Every piece of text is in exactly one place of one line.
pub proof fn lemma_lines_are_complete<F: Fn(usize, usize, usize) -> bool>(
    same_line: F,
    spots: Seq<Spot>,
    y_sorting: bool,
    lines: Seq<Seq<usize>>,
)
    requires
        are_lines(same_line, spots, line_order(spots, y_sorting), lines),
    ensures
        joined_lists(lines).to_multiset() == indices(spots.len()).to_multiset(),
{
    crate::ordering::lemma_sorted_by_keys(indices(spots.len()), reading_keys(spots));
}

// ---------------------------------------------------------------------------------------------
// Pieces that belong together
// ---------------------------------------------------------------------------------------------

/// Whether each piece is in the first group that it belongs to. A group is given by its head, its
/// first piece; `near` answers of a head and a piece on the same page whether they belong
/// together. A piece that belongs to no group is the head of a new one.
pub open spec fn are_first_fit<F: Fn(usize, usize) -> bool>(
    near: F,
    spots: Seq<Spot>,
    heads: Seq<usize>,
    slots: Seq<usize>,
    n: int,
) -> bool {
    &&& slots.len() == n
    &&& forall|g: int, h: int| 0 <= g < h < heads.len() ==> (#[trigger] heads[g]) < (#[trigger] heads[h])
    &&& forall|g: int|
        0 <= g < heads.len() ==> (#[trigger] heads[g]) < n && slots[heads[g] as int] == g
    &&& forall|i: int|
        0 <= i < n ==> {
            &&& (#[trigger] slots[i]) < heads.len()
            &&& heads[slots[i] as int] <= i
            &&& heads[slots[i] as int] == i || (spots[heads[slots[i] as int] as int].page
                == spots[i].page && near.ensures((heads[slots[i] as int], i as usize), true))
        }
    &&& forall|i: int, g: int|
        0 <= i < n && 0 <= g < slots[i] ==> spots[#[trigger] heads[g] as int].page
            != (#[trigger] spots[i]).page || near.ensures((heads[g], i as usize), false)
}

/// Puts pieces of text at about the same height into groups. Returns the heads of the groups, and
/// for each piece the number of its group.
pub fn group_by_height<F: Fn(usize, usize) -> bool>(spots: &Vec<Spot>, near: F) -> (r: (
    Vec<usize>,
    Vec<usize>,
))
    requires
        forall|a: usize, b: usize| near.requires((a, b)),
    ensures
        are_first_fit(near, spots@, r.0@, r.1@, spots@.len() as int),
{
    let mut heads: Vec<usize> = Vec::new();
    let mut slots: Vec<usize> = Vec::new();
    let mut i: usize = 0;
    while i < spots.len()
        invariant
            i <= spots@.len(),
            forall|a: usize, b: usize| near.requires((a, b)),
            are_first_fit(near, spots@, heads@, slots@, i as int),
            heads@.len() <= i,
        decreases spots@.len() - i,
    {
        let mut g: usize = 0;
        let mut found: bool = false;
        while g < heads.len()
            invariant_except_break
                !found,
                forall|h: int|
                    0 <= h < g ==> spots@[#[trigger] heads@[h] as int].page != spots@[i as int].page
                        || near.ensures((heads@[h], i), false),
            invariant
                i < spots@.len(),
                g <= heads@.len(),
                forall|a: usize, b: usize| near.requires((a, b)),
                forall|h: int| 0 <= h < heads@.len() ==> (#[trigger] heads@[h]) < i,
            ensures
                forall|h: int|
                    0 <= h < g ==> spots@[#[trigger] heads@[h] as int].page != spots@[i as int].page
                        || near.ensures((heads@[h], i), false),
                found ==> g < heads@.len() && spots@[heads@[g as int] as int].page
                    == spots@[i as int].page && near.ensures((heads@[g as int], i), true),
                !found ==> g == heads@.len(),
            decreases heads@.len() - g,
        {
            let head: usize = heads[g];
            assert(heads@[g as int] < i);
            if spots[head].page == spots[i].page && near(head, i) {
                found = true;
                break;
            }
            g = g + 1;
        }
        let ghost old_heads = heads@;
        let ghost old_slots = slots@;
        if !found {
            heads.push(i);
        }
        slots.push(g);
        i = i + 1;
        proof {
            let n = i as int;
            let last = n - 1;
            assert forall|h: int| 0 <= h < heads@.len() implies (#[trigger] heads@[h]) < n
                && slots@[heads@[h] as int] == h by {
                if h < old_heads.len() {
                    assert(heads@[h] == old_heads[h]);
                    assert(slots@[heads@[h] as int] == old_slots[old_heads[h] as int]);
                }
            }
            assert forall|k: int| 0 <= k < n implies {
                &&& (#[trigger] slots@[k]) < heads@.len()
                &&& heads@[slots@[k] as int] <= k
                &&& heads@[slots@[k] as int] == k || (spots@[heads@[slots@[k] as int] as int].page
                    == spots@[k].page && near.ensures((heads@[slots@[k] as int], k as usize), true))
            } by {
                if k < last {
                    assert(slots@[k] == old_slots[k]);
                    assert(heads@[slots@[k] as int] == old_heads[slots@[k] as int]);
                }
            }
            assert forall|k: int, h: int|
                0 <= k < n && 0 <= h < slots@[k] implies spots@[#[trigger] heads@[h] as int].page
                != (#[trigger] spots@[k]).page || near.ensures((heads@[h], k as usize), false) by {
                assert(h < old_heads.len());
                assert(heads@[h] == old_heads[h]);
                if k < last {
                    assert(slots@[k] == old_slots[k]);
                }
            }
        }
    }
    (heads, slots)
}

/// How a piece of text follows another.
#[derive(Debug, Clone, Copy, PartialEq, Eq, Structural)]
pub enum Link {
    /// It does not.
    Break,
    /// Directly.
    Join,
    /// With a space between them.
    JoinSpaced,
}

/// Whether pieces of a row belong together from position `s` up to but without `e`, with the given
/// links: `follow` answers of the first piece, the last one before, and a piece how it follows.
pub open spec fn is_run<F: Fn(usize, usize, usize) -> Link>(
    follow: F,
    row: Seq<usize>,
    s: int,
    e: int,
    links: Seq<Link>,
) -> bool {
    &&& 0 <= s < e <= row.len()
    &&& links.len() == e - s
    &&& links[0] == Link::Break
    &&& forall|p: int|
        s < p < e ==> (#[trigger] links[p - s]) != Link::Break && follow.ensures(
            (row[s], row[p - 1], row[p]),
            links[p - s],
        )
    &&& e < row.len() ==> follow.ensures((row[s], row[e - 1], row[e]), Link::Break)
}

/// Finds how far the pieces of a row belong together from position `start` on, and how each
/// follows.
pub fn find_run<F: Fn(usize, usize, usize) -> Link>(
    row: &Vec<usize>,
    start: usize,
    follow: F,
) -> (r: (usize, Vec<Link>))
    requires
        start < row@.len(),
        forall|a: usize, b: usize, c: usize| follow.requires((a, b, c)),
    ensures
        is_run(follow, row@, start as int, r.0 as int, r.1@),
{
    let len: usize = row.len();
    let mut links: Vec<Link> = Vec::new();
    links.push(Link::Break);
    let first: usize = row[start];
    let mut e: usize = start + 1;
    while e < len
        invariant
            start < e <= len == row@.len(),
            forall|a: usize, b: usize, c: usize| follow.requires((a, b, c)),
            first == row@[start as int],
            links@.len() == e - start,
            links@[0] == Link::Break,
            forall|p: int|
                start < p < e ==> (#[trigger] links@[p - start]) != Link::Break && follow.ensures(
                    (row@[start as int], row@[p - 1], row@[p]),
                    links@[p - start],
                ),
        decreases row@.len() - e,
    {
        let link: Link = follow(first, row[e - 1], row[e]);
        match link {
            Link::Break => {
                return (e, links);
            },
            _ => {},
        }
        let ghost before = links@;
        links.push(link);
        e = e + 1;
        proof {
            assert forall|p: int| start < p < e implies (#[trigger] links@[p - start])
                != Link::Break && follow.ensures(
                (row@[start as int], row@[p - 1], row@[p]),
                links@[p - start],
            ) by {
                if p < e - 1 {
                    assert(links@[p - start] == before[p - start]);
                }
            }
        }
    }
    (e, links)
}

/// The text of pieces that belong together: each behind the other, with a space where the link
/// asks for one.
pub open spec fn linked_text(texts: Seq<Seq<char>>, links: Seq<Link>, n: int) -> Seq<char>
    decreases n,
{
    if n <= 0 {
        seq![]
    } else {
        let before = linked_text(texts, links, n - 1);
        if links[n - 1] == Link::JoinSpaced {
            before.push(' ') + texts[n - 1]
        } else {
            before + texts[n - 1]
        }
    }
}

/// Texts as they are held, as plain contents.
pub open spec fn text_contents(texts: Seq<String>) -> Seq<Seq<char>> {
    texts.map_values(|t: String| t@)
}

/// Puts the texts of pieces that belong together behind each other.
pub fn join_linked(texts: &Vec<String>, links: &Vec<Link>) -> (r: String)
    requires
        texts@.len() == links@.len(),
    ensures
        r@ == linked_text(text_contents(texts@), links@, texts@.len() as int),
{
    let mut out: String = String::new();
    let mut i: usize = 0;
    assert(out@ =~= seq![]);
    while i < texts.len()
        invariant
            i <= texts@.len() == links@.len(),
            out@ == linked_text(text_contents(texts@), links@, i as int),
        decreases texts@.len() - i,
    {
        match links[i] {
            Link::JoinSpaced => {
                out.push(' ');
            },
            _ => {},
        }
        out.append(texts[i].as_str());
        i = i + 1;
    }
    out
}

/// Pieces of text that are merged into one, and how each follows the one before.
#[derive(Debug, Clone)]
pub struct MergedItem {
    pub items: Vec<usize>,
    pub links: Vec<Link>,
}

/// Whether merged pieces are the runs of a row up to position `e`, one after the other.
pub open spec fn are_runs<F: Fn(usize, usize, usize) -> Link>(
    follow: F,
    row: Seq<usize>,
    e: int,
    runs: Seq<MergedItem>,
) -> bool
    decreases runs.len(),
{
    if runs.len() == 0 {
        e == 0
    } else {
        let s = e - runs.last().items@.len();
        &&& s >= 0
        &&& is_run(follow, row, s, e, runs.last().links@)
        &&& runs.last().items@ == row.subrange(s, e)
        &&& are_runs(follow, row, s, runs.drop_last())
    }
}

/// The keys by which groups are sorted: by page, and from top to bottom.
pub open spec fn page_keys(spots: Seq<Spot>) -> Seq<(i64, i64)> {
    spots.map_values(|s: Spot| (s.page as i64, (-order_of(s.y)) as i64))
}

/// The texts of pieces, given by their numbers.
pub open spec fn texts_of(texts: Seq<Seq<char>>, list: Seq<usize>) -> Seq<Seq<char>> {
    list.map_values(|k: usize| texts[k as int])
}

/// The pieces of a group by the direction in which their texts are written. The group is given by
/// its head.
pub open spec fn group_row(
    spots: Seq<Spot>,
    texts: Seq<Seq<char>>,
    slots: Seq<usize>,
    head: usize,
) -> Seq<usize> {
    let group = members(slots, slots.len(), slots[head as int]);
    sorted_by_keys(group, direction_keys(spots, are_rtl(texts_of(texts, group))))
}

/// Whether the texts of pieces are written from right to left.
pub fn is_rtl_line(texts: &Vec<String>, line: &Vec<usize>) -> (r: bool)
    requires
        forall|i: int| 0 <= i < line@.len() ==> (#[trigger] line@[i]) < texts@.len(),
    ensures
        r == are_rtl(texts_of(text_contents(texts@), line@)),
{
    let ghost all = texts_of(text_contents(texts@), line@);
    let mut parts: Vec<&str> = Vec::new();
    let mut i: usize = 0;
    assert(slice_contents(parts@) =~= all.take(0));
    while i < line.len()
        invariant
            i <= line@.len(),
            forall|k: int| 0 <= k < line@.len() ==> (#[trigger] line@[k]) < texts@.len(),
            all == texts_of(text_contents(texts@), line@),
            slice_contents(parts@) == all.take(i as int),
        decreases line@.len() - i,
    {
        let ghost before = slice_contents(parts@);
        let text: &str = texts[line[i]].as_str();
        parts.push(text);
        assert(slice_contents(parts@) =~= before.push(text@));
        i = i + 1;
        assert(slice_contents(parts@) =~= all.take(i as int));
    }
    assert(all.take(i as int) =~= all);
    is_rtl_text(parts.as_slice())
}

/// Whether rows of merged pieces are right for the given groups: the groups in order, and in each
/// the runs of its pieces.
pub open spec fn are_merged_rows<F: Fn(usize, usize, usize) -> Link>(
    follow: F,
    spots: Seq<Spot>,
    texts: Seq<Seq<char>>,
    slots: Seq<usize>,
    order: Seq<usize>,
    rows: Seq<Vec<MergedItem>>,
    n: int,
) -> bool {
    rows.len() == n && forall|g: int|
        0 <= g < n ==> are_runs(
            follow,
            group_row(spots, texts, slots, order[g]),
            group_row(spots, texts, slots, order[g]).len() as int,
            (#[trigger] rows[g])@,
        )
}

/// Merges pieces of text that stand at about the same height and right beside each other. `near`
/// answers of two pieces on the same page whether they are at the same height, `follow` how a piece
/// follows the pieces before it. The rows come from top to bottom, page by page; a row is read by
/// the direction of its texts.
pub fn merge_text_items<N: Fn(usize, usize) -> bool, F: Fn(usize, usize, usize) -> Link>(
    spots: &Vec<Spot>,
    texts: &Vec<String>,
    near: N,
    follow: F,
) -> (r: Vec<Vec<MergedItem>>)
    requires
        spots@.len() == texts@.len(),
        forall|a: usize, b: usize| near.requires((a, b)),
        forall|a: usize, b: usize, c: usize| follow.requires((a, b, c)),
    ensures
        exists|heads: Seq<usize>, slots: Seq<usize>|
            {
                &&& #[trigger] are_first_fit(near, spots@, heads, slots, spots@.len() as int)
                &&& are_merged_rows(
                    follow,
                    spots@,
                    text_contents(texts@),
                    slots,
                    sorted_by_keys(heads, page_keys(spots@)),
                    r@,
                    heads.len() as int,
                )
            },
{
    let (heads, slots) = group_by_height(spots, near);
    let mut keys: Vec<(i64, i64)> = Vec::new();
    let mut i: usize = 0;
    while i < spots.len()
        invariant
            i <= spots@.len(),
            keys@ == page_keys(spots@).take(i as int),
        decreases spots@.len() - i,
    {
        keys.push((spots[i].page as i64, -order_key(spots[i].y)));
        i = i + 1;
        assert(keys@ =~= page_keys(spots@).take(i as int));
    }
    assert(keys@ =~= page_keys(spots@));
    assert forall|g: int| 0 <= g < heads@.len() implies (#[trigger] heads@[g]) < keys@.len() by {}
    let order = sort_by_keys(&heads, &keys);
    proof {
        lemma_sorted_by_keys(heads@, keys@);
    }
    let mut rows: Vec<Vec<MergedItem>> = Vec::new();
    let mut g: usize = 0;
    while g < order.len()
        invariant
            g <= order@.len(),
            slots@.len() == spots@.len() == texts@.len(),
            keys@.len() == spots@.len(),
            have_keys(order@, keys@),
            forall|a: usize, b: usize, c: usize| follow.requires((a, b, c)),
            are_merged_rows(
                follow,
                spots@,
                text_contents(texts@),
                slots@,
                order@,
                rows@,
                g as int,
            ),
        decreases order@.len() - g,
    {
        let head: usize = order[g];
        assert(order@[g as int] < keys@.len());
        let group = collect_members(&slots, slots[head]);
        let rtl: bool = is_rtl_line(texts, &group);
        let row = sort_line_items(spots, &group, rtl);
        let mut runs: Vec<MergedItem> = Vec::new();
        let mut start: usize = 0;
        while start < row.len()
            invariant
                start <= row@.len(),
                forall|a: usize, b: usize, c: usize| follow.requires((a, b, c)),
                are_runs(follow, row@, start as int, runs@),
            decreases row@.len() - start,
        {
            let (e, links) = find_run(&row, start, &follow);
            let mut items: Vec<usize> = Vec::new();
            items.extend_from_slice(slice_subrange(row.as_slice(), start, e));
            assert(items@ =~= row@.subrange(start as int, e as int));
            let ghost before = runs@;
            runs.push(MergedItem { items, links });
            assert(runs@.drop_last() =~= before);
            start = e;
        }
        let ghost done = rows@;
        rows.push(runs);
        assert forall|h: int| 0 <= h < g + 1 implies are_runs(
            follow,
            group_row(spots@, text_contents(texts@), slots@, order@[h]),
            group_row(spots@, text_contents(texts@), slots@, order@[h]).len() as int,
            (#[trigger] rows@[h])@,
        ) by {
            if h < g {
                assert(rows@[h] == done[h]);
            }
        }
        g = g + 1;
    }
    assert(are_first_fit(near, spots@, heads@, slots@, spots@.len() as int));
    rows
}

/// The pieces of merged items, one behind the other.
pub open spec fn joined_runs(runs: Seq<MergedItem>) -> Seq<usize>
    decreases runs.len(),
{
    if runs.len() == 0 {
        seq![]
    } else {
        joined_runs(runs.drop_last()) + runs.last().items@
    }
}

/// To merge the pieces of a row loses none and changes no order: the merged items hold the row.
pub proof fn lemma_runs_keep_the_row<F: Fn(usize, usize, usize) -> Link>(
    follow: F,
    row: Seq<usize>,
    e: int,
    runs: Seq<MergedItem>,
)
    requires
        0 <= e <= row.len(),
        are_runs(follow, row, e, runs),
    ensures
        joined_runs(runs) == row.take(e),
    decreases runs.len(),
{
    if runs.len() == 0 {
        assert(row.take(0) =~= seq![]);
    } else {
        let s = e - runs.last().items@.len();
        lemma_runs_keep_the_row(follow, row, s, runs.drop_last());
        assert(row.take(s) + row.subrange(s, e) =~= row.take(e));
    }
}

/// Every piece is in exactly one group: that of its slot, which is the group of a head.
pub proof fn lemma_pieces_have_one_group<F: Fn(usize, usize) -> bool>(
    near: F,
    spots: Seq<Spot>,
    heads: Seq<usize>,
    slots: Seq<usize>,
    k: usize,
)
    requires
        are_first_fit(near, spots, heads, slots, spots.len() as int),
        k < spots.len() <= usize::MAX,
    ensures
        slots[k as int] < heads.len(),
        forall|g: int|
            0 <= g < heads.len() ==> members(
                slots,
                slots.len(),
                slots[#[trigger] heads[g] as int],
            ).contains(k) == (slots[k as int] == g),
{
    broadcast use vstd::seq_lib::group_filter_ensures;

    let all = indices(slots.len());
    assert(all[k as int] == k);
    assert(slots[k as int] < heads.len());
    assert forall|g: int| 0 <= g < heads.len() implies members(
        slots,
        slots.len(),
        slots[#[trigger] heads[g] as int],
    ).contains(k) == (slots[k as int] == g) by {
        assert(slots[heads[g] as int] == g);
        let wanted = is_member(slots, g as usize);
        if all.filter(wanted).contains(k) {
            let i = choose|i: int| 0 <= i < all.filter(wanted).len() && all.filter(wanted)[i] == k;
            assert(wanted(all.filter(wanted)[i]));
        }
        if slots[k as int] == g {
            assert(wanted(all[k as int]));
            assert(all.filter(wanted).contains(all[k as int]));
        }
    }
}

} // verus!
