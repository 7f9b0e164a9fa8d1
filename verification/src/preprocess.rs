//! Lines before they become Markdown: running headers, drop caps, and headings over several lines.

use crate::encodings::same_text;
use crate::layout::lemma_filter_member;
use crate::ordering::indices;
use crate::spacing::{is_decimal_digit, is_digit};
use crate::text::{
    begins_with, chars_of, contains_text, has_text, is_space, is_whitespace, starts_with, string_of,
    trim, trim_start, trimmed, trimmed_start,
};
use crate::text_utils::{is_lower, is_upper};
use vstd::prelude::*;

verus! {

// ---------------------------------------------------------------------------------------------
// White space
// ---------------------------------------------------------------------------------------------

/// A text with its words separated by single spaces, and no white space around it.
pub open spec fn normalized(s: Seq<char>) -> Seq<char>
    decreases s.len(),
{
    if s.len() == 0 {
        seq![]
    } else {
        let before = normalized(s.drop_last());
        if is_space(s.last()) {
            before
        } else if before.len() > 0 && is_space(s[s.len() - 2]) {
            before.push(' ').push(s.last())
        } else {
            before.push(s.last())
        }
    }
}

/// The characters of a text with its words separated by single spaces.
fn normalize_chars(s: &[char]) -> (r: Vec<char>)
    ensures
        r@ == normalized(s@),
{
    let mut out: Vec<char> = Vec::new();
    let mut i: usize = 0;
    assert(s@.take(0) =~= seq![]);
    assert(out@ =~= seq![]);
    while i < s.len()
        invariant
            i <= s@.len(),
            out@ == normalized(s@.take(i as int)),
            out@.len() > 0 ==> i > 0,
        decreases s@.len() - i,
    {
        let c: char = s[i];
        assert(s@.take(i + 1).drop_last() =~= s@.take(i as int));
        if !is_whitespace(c) {
            if out.len() > 0 && is_whitespace(s[i - 1]) {
                out.push(' ');
            }
            out.push(c);
        }
        i = i + 1;
    }
    assert(s@.take(i as int) =~= s@);
    out
}

/// Separates the words of a text by single spaces, with none around it.
pub fn normalize_whitespace(s: &str) -> (r: String)
    ensures
        r@ == normalized(s@),
{
    string_of(normalize_chars(chars_of(s).as_slice()).as_slice())
}

/// Whether white space is single spaces between words.
pub open spec fn is_normal(s: Seq<char>) -> bool {
    &&& s.len() > 0 ==> !is_space(s.first()) && !is_space(s.last())
    &&& forall|i: int| 0 <= i < s.len() && is_space(#[trigger] s[i]) ==> s[i] == ' '
    &&& forall|i: int| 0 < i < s.len() && is_space(#[trigger] s[i]) ==> !is_space(s[i - 1])
}

proof fn lemma_normalized_is_normal(s: Seq<char>)
    ensures
        is_normal(normalized(s)),
    decreases s.len(),
{
    if s.len() > 0 {
        lemma_normalized_is_normal(s.drop_last());
    }
}

proof fn lemma_normal_stays(s: Seq<char>, n: int)
    requires
        is_normal(s),
        0 <= n <= s.len(),
    ensures
        normalized(s.take(n)) == if n > 0 && is_space(s[n - 1]) {
            s.take(n - 1)
        } else {
            s.take(n)
        },
    decreases n,
{
    if n == 0 {
        assert(s.take(0) =~= seq![]);
    } else {
        lemma_normal_stays(s, n - 1);
        assert(s.take(n).drop_last() =~= s.take(n - 1));
        if is_space(s[n - 1]) {
            if n >= 2 {
                assert(!is_space(s[n - 2]));
            }
        } else if n >= 2 && is_space(s[n - 2]) {
            assert(n - 2 > 0);
            assert(s[n - 2] == ' ');
            assert(s.take(n - 2).push(' ').push(s[n - 1]) =~= s.take(n));
        } else {
            assert(s.take(n - 1).push(s[n - 1]) =~= s.take(n));
        }
    }
}

/// Text whose white space is normal already stays as it is.
pub proof fn lemma_normalizing_is_final(s: Seq<char>)
    ensures
        is_normal(normalized(s)),
        normalized(normalized(s)) == normalized(s),
{
    lemma_normalized_is_normal(s);
    let t = normalized(s);
    lemma_normal_stays(t, t.len() as int);
    assert(t.take(t.len() as int) =~= t);
}

/// Whether a line looks like a heading or a list item.
pub open spec fn is_structural(s: Seq<char>) -> bool {
    let t = trimmed_start(s);
    ||| t.len() > 0 && t[0] == '#'
    ||| begins_with(t, "- "@)
    ||| begins_with(t, "* "@)
    ||| begins_with(t, "• "@)
    ||| t.len() > 0 && is_digit(t[0]) && (has_text(t, ". "@) || has_text(t, ") "@))
}

/// Whether a line looks like a heading or a list item, which is never taken as a running header.
pub fn is_structural_line(text: &str) -> (r: bool)
    ensures
        r == is_structural(text@),
{
    let chars = chars_of(text);
    is_structural_text(chars.as_slice())
}

fn is_structural_text(s: &[char]) -> (r: bool)
    ensures
        r == is_structural(s@),
{
    let t = trim_start(s);
    (t.len() > 0 && t[0] == '#') || starts_with(t, "- ") || starts_with(t, "* ") || starts_with(
        t,
        "• ",
    ) || (t.len() > 0 && is_decimal_digit(t[0]) && (contains_text(t, ". ") || contains_text(
        t,
        ") ",
    )))
}

/// Whether a text is one character over and over.
pub open spec fn is_one_character(s: Seq<char>) -> bool {
    s.len() > 0 && forall|i: int| 0 <= i < s.len() ==> #[trigger] s[i] == s[0]
}

/// Whether a line is one character over and over, such as a row of hyphens.
pub fn is_decorative_separator(text: &str) -> (r: bool)
    ensures
        r == is_one_character(text@),
{
    let chars = chars_of(text);
    is_separator_text(chars.as_slice())
}

fn is_separator_text(s: &[char]) -> (r: bool)
    ensures
        r == is_one_character(s@),
{
    if s.len() == 0 {
        return false;
    }
    let mut i: usize = 0;
    while i < s.len()
        invariant
            i <= s@.len(),
            s@.len() > 0,
            forall|k: int| 0 <= k < i ==> #[trigger] s@[k] == s@[0],
        decreases s@.len() - i,
    {
        if s[i] != s[0] {
            return false;
        }
        i = i + 1;
    }
    true
}

// ---------------------------------------------------------------------------------------------
// Running headers and footers
// ---------------------------------------------------------------------------------------------

/// A line as far as it may be a running header: its text, its page, and its height on the page, in
/// hundredths of a point. Heights grow upwards.
#[derive(Debug, Clone)]
pub struct EdgeLine {
    pub text: String,
    pub page: u32,
    pub y: i64,
}

/// The height of the lowest line on a page; the greatest number where it has none.
pub open spec fn lowest(lines: Seq<EdgeLine>, page: u32) -> i64
    decreases lines.len(),
{
    if lines.len() == 0 {
        i64::MAX
    } else {
        let rest = lowest(lines.drop_last(), page);
        if lines.last().page == page && lines.last().y < rest {
            lines.last().y
        } else {
            rest
        }
    }
}

/// The height of the highest line on a page; the least number where it has none.
pub open spec fn highest(lines: Seq<EdgeLine>, page: u32) -> i64
    decreases lines.len(),
{
    if lines.len() == 0 {
        i64::MIN
    } else {
        let rest = highest(lines.drop_last(), page);
        if lines.last().page == page && lines.last().y > rest {
            lines.last().y
        } else {
            rest
        }
    }
}

/// Whether a height is in the top or the bottom fifteen percent of the range from `low` to `high`.
pub open spec fn is_in_margin(y: int, low: int, high: int) -> bool {
    (y - low) * 100 <= (high - low) * 15 || (high - y) * 100 <= (high - low) * 15
}

/// Whether line `i` is at the edge of its page: in the top or the bottom fifteen percent of the
/// range of heights that the lines of the page have.
pub open spec fn is_at_edge(lines: Seq<EdgeLine>, i: int) -> bool {
    is_in_margin(
        lines[i].y as int,
        lowest(lines, lines[i].page) as int,
        highest(lines, lines[i].page) as int,
    )
}

/// Whether a line is at the edge of its page, by its height and the heights of the lowest and the
/// highest line of the page.
pub fn is_edge_line(y: i64, low: i64, high: i64) -> (r: bool)
    ensures
        r == is_in_margin(y as int, low as int, high as int),
{
    let share: i128 = (high as i128 - low as i128) * 15;
    (y as i128 - low as i128) * 100 <= share || (high as i128 - y as i128) * 100 <= share
}

/// The lowest and the highest line of a page bound the heights of its lines, and are among them.
pub proof fn lemma_page_range(lines: Seq<EdgeLine>, i: int)
    requires
        0 <= i < lines.len(),
    ensures
        lowest(lines, lines[i].page) <= lines[i].y <= highest(lines, lines[i].page),
        exists|k: int|
            0 <= k < lines.len() && #[trigger] lines[k].page == lines[i].page && lines[k].y
                == lowest(lines, lines[i].page),
        exists|k: int|
            0 <= k < lines.len() && #[trigger] lines[k].page == lines[i].page && lines[k].y
                == highest(lines, lines[i].page),
    decreases lines.len(),
{
    let rest = lines.drop_last();
    let page = lines[i].page;
    let last = lines.len() - 1;
    if exists|j: int| 0 <= j < rest.len() && rest[j].page == page {
        let j = choose|j: int| 0 <= j < rest.len() && rest[j].page == page;
        lemma_page_range(rest, j);
        if i < rest.len() {
            lemma_page_range(rest, i);
        }
        let low = choose|k: int|
            0 <= k < rest.len() && #[trigger] rest[k].page == page && rest[k].y == lowest(
                rest,
                page,
            );
        let high = choose|k: int|
            0 <= k < rest.len() && #[trigger] rest[k].page == page && rest[k].y == highest(
                rest,
                page,
            );
        assert(lines[low] == rest[low] && lines[high] == rest[high]);
        assert(lines[last].page == lines[last].page);
    } else {
        assert(i == last) by {
            if i < rest.len() {
                assert(rest[i].page == page);
            }
        }
        lemma_page_without_lines(rest, page);
        assert(lines[last].page == page);
    }
}

/// A page without lines has no range.
proof fn lemma_page_without_lines(lines: Seq<EdgeLine>, page: u32)
    requires
        forall|j: int| 0 <= j < lines.len() ==> lines[j].page != page,
    ensures
        lowest(lines, page) == i64::MAX,
        highest(lines, page) == i64::MIN,
    decreases lines.len(),
{
    if lines.len() > 0 {
        assert(lines.last() == lines[lines.len() - 1]);
        lemma_page_without_lines(lines.drop_last(), page);
    }
}

/// The heights of the lowest and the highest line of a page.
fn page_range(lines: &Vec<EdgeLine>, page: u32) -> (r: (i64, i64))
    ensures
        r.0 == lowest(lines@, page),
        r.1 == highest(lines@, page),
{
    let mut low: i64 = i64::MAX;
    let mut high: i64 = i64::MIN;
    let mut i: usize = 0;
    while i < lines.len()
        invariant
            i <= lines@.len(),
            low == lowest(lines@.take(i as int), page),
            high == highest(lines@.take(i as int), page),
        decreases lines@.len() - i,
    {
        assert(lines@.take(i + 1).drop_last() =~= lines@.take(i as int));
        assert(lines@.take(i + 1).last() == lines@[i as int]);
        if lines[i].page == page && lines[i].y < low {
            low = lines[i].y;
        }
        if lines[i].page == page && lines[i].y > high {
            high = lines[i].y;
        }
        i = i + 1;
    }
    assert(lines@.take(i as int) =~= lines@);
    (low, high)
}

/// Which lines are at the edges of their pages.
fn find_edges(lines: &Vec<EdgeLine>) -> (r: Vec<bool>)
    ensures
        r@.len() == lines@.len(),
        forall|i: int| 0 <= i < lines@.len() ==> #[trigger] r@[i] == is_at_edge(lines@, i),
{
    let mut out: Vec<bool> = Vec::new();
    let mut page: u32 = 0;
    let mut range: (i64, i64) = page_range(lines, 0);
    let mut i: usize = 0;
    while i < lines.len()
        invariant
            i <= lines@.len(),
            out@.len() == i,
            range.0 == lowest(lines@, page),
            range.1 == highest(lines@, page),
            forall|k: int| 0 <= k < i ==> #[trigger] out@[k] == is_at_edge(lines@, k),
        decreases lines@.len() - i,
    {
        if lines[i].page != page {
            page = lines[i].page;
            range = page_range(lines, page);
        }
        out.push(is_edge_line(lines[i].y, range.0, range.1));
        i = i + 1;
    }
    out
}

/// The normalized text of a line.
pub open spec fn norm_of(line: EdgeLine) -> Seq<char> {
    normalized(line.text@)
}

/// Whether line `i` counts as an occurrence of a running header: it is at the edge of its page, at
/// least ten characters long, and no separator.
pub open spec fn is_counted(lines: Seq<EdgeLine>, i: int) -> bool {
    is_at_edge(lines, i) && norm_of(lines[i]).len() >= 10 && !is_one_character(norm_of(lines[i]))
}

/// The lines that count as occurrences of the text of line `k`.
pub open spec fn occurrences(lines: Seq<EdgeLine>, k: int) -> Seq<usize> {
    indices(lines.len()).filter(is_occurrence(lines, k))
}

/// Whether a line counts as an occurrence of the text of line `k`.
pub open spec fn is_occurrence(lines: Seq<EdgeLine>, k: int) -> spec_fn(usize) -> bool {
    |i: usize| is_counted(lines, i as int) && norm_of(lines[i as int]) == norm_of(lines[k])
}

/// The pages of the given lines.
pub open spec fn pages_at(lines: Seq<EdgeLine>, at: Seq<usize>) -> Set<u32>
    decreases at.len(),
{
    if at.len() == 0 {
        Set::empty()
    } else {
        pages_at(lines, at.drop_last()).insert(lines[at.last() as int].page)
    }
}

/// On how many pages a text has to occur: three, or three in ten.
pub open spec fn page_threshold(page_count: u32) -> int {
    if page_count * 30 / 100 > 3 {
        page_count * 30 / 100
    } else {
        3
    }
}

/// Whether line `k` is the first occurrence of a text that occurs on enough pages and is neither a
/// heading nor a list item.
pub open spec fn is_repeated(lines: Seq<EdgeLine>, page_count: u32) -> spec_fn(usize) -> bool {
    |k: usize|
        {
            &&& is_counted(lines, k as int)
            &&& occurrences(lines, k as int).first() == k
            &&& pages_at(lines, occurrences(lines, k as int)).len() >= page_threshold(page_count)
            &&& !is_structural(norm_of(lines[k as int]))
        }
}

/// The occurrences of each text that may be a running header, by the first occurrence of each.
pub open spec fn repeated(lines: Seq<EdgeLine>, page_count: u32) -> Seq<Seq<usize>> {
    if page_count < 3 {
        seq![]
    } else {
        indices(lines.len()).filter(is_repeated(lines, page_count)).map_values(
            |k: usize| occurrences(lines, k as int),
        )
    }
}

/// The normalized texts of lines.
fn normalize_all(lines: &Vec<EdgeLine>) -> (r: Vec<Vec<char>>)
    ensures
        r@.len() == lines@.len(),
        forall|i: int| 0 <= i < lines@.len() ==> (#[trigger] r@[i])@ == norm_of(lines@[i]),
{
    let mut out: Vec<Vec<char>> = Vec::new();
    let mut i: usize = 0;
    while i < lines.len()
        invariant
            i <= lines@.len(),
            out@.len() == i,
            forall|k: int| 0 <= k < i ==> (#[trigger] out@[k])@ == norm_of(lines@[k]),
        decreases lines@.len() - i,
    {
        out.push(normalize_chars(chars_of(lines[i].text.as_str()).as_slice()));
        i = i + 1;
    }
    out
}

/// Which lines count as occurrences of a running header.
fn find_counted(lines: &Vec<EdgeLine>, norms: &Vec<Vec<char>>) -> (r: Vec<bool>)
    requires
        norms@.len() == lines@.len(),
        forall|i: int| 0 <= i < lines@.len() ==> (#[trigger] norms@[i])@ == norm_of(lines@[i]),
    ensures
        r@.len() == lines@.len(),
        forall|i: int| 0 <= i < lines@.len() ==> #[trigger] r@[i] == is_counted(lines@, i),
{
    let edges: Vec<bool> = find_edges(lines);
    let mut out: Vec<bool> = Vec::new();
    let mut i: usize = 0;
    while i < lines.len()
        invariant
            i <= lines@.len(),
            out@.len() == i,
            norms@.len() == lines@.len(),
            edges@.len() == lines@.len(),
            forall|k: int| 0 <= k < lines@.len() ==> (#[trigger] norms@[k])@ == norm_of(lines@[k]),
            forall|k: int| 0 <= k < lines@.len() ==> #[trigger] edges@[k] == is_at_edge(lines@, k),
            forall|k: int| 0 <= k < i ==> #[trigger] out@[k] == is_counted(lines@, k),
        decreases lines@.len() - i,
    {
        assert(norms@[i as int]@ == norm_of(lines@[i as int]));
        out.push(edges[i] && norms[i].len() >= 10 && !is_separator_text(norms[i].as_slice()));
        i = i + 1;
    }
    out
}

/// The lines that count as occurrences of the text of line `k`.
fn find_occurrences(
    lines: &Vec<EdgeLine>,
    norms: &Vec<Vec<char>>,
    counted: &Vec<bool>,
    k: usize,
) -> (r: Vec<usize>)
    requires
        norms@.len() == lines@.len(),
        counted@.len() == lines@.len(),
        forall|i: int| 0 <= i < lines@.len() ==> #[trigger] counted@[i] == is_counted(lines@, i),
        forall|i: int| 0 <= i < lines@.len() ==> (#[trigger] norms@[i])@ == norm_of(lines@[i]),
        k < lines@.len(),
    ensures
        r@ == occurrences(lines@, k as int),
        forall|i: int| 0 <= i < r@.len() ==> (#[trigger] r@[i]) < lines@.len(),
{
    let ghost wanted = is_occurrence(lines@, k as int);
    let n: usize = lines.len();
    let mut out: Vec<usize> = Vec::new();
    let mut i: usize = 0;
    assert(indices(0).filter(wanted) =~= seq![]) by {
        reveal(Seq::filter);
    }
    while i < n
        invariant
            i <= n == lines@.len(),
            k < n,
            norms@.len() == lines@.len(),
            counted@.len() == lines@.len(),
            forall|j: int|
                0 <= j < lines@.len() ==> #[trigger] counted@[j] == is_counted(lines@, j),
            forall|j: int| 0 <= j < lines@.len() ==> (#[trigger] norms@[j])@ == norm_of(lines@[j]),
            wanted == is_occurrence(lines@, k as int),
            out@ == indices(i as nat).filter(wanted),
            forall|j: int| 0 <= j < out@.len() ==> (#[trigger] out@[j]) < lines@.len(),
        decreases n - i,
    {
        assert(indices((i + 1) as nat) =~= indices(i as nat).push(i));
        assert(indices((i + 1) as nat).drop_last() =~= indices(i as nat));
        reveal(Seq::filter);
        assert(norms@[i as int]@ == norm_of(lines@[i as int]));
        assert(norms@[k as int]@ == norm_of(lines@[k as int]));
        if counted[i] && same_text(norms[i].as_slice(), norms[k].as_slice()) {
            out.push(i);
        }
        i = i + 1;
    }
    out
}

/// On how many pages the given lines are.
fn count_pages_at(lines: &Vec<EdgeLine>, at: &Vec<usize>) -> (r: usize)
    requires
        forall|i: int| 0 <= i < at@.len() ==> (#[trigger] at@[i]) < lines@.len(),
    ensures
        r == pages_at(lines@, at@).len(),
{
    let mut seen: Vec<u32> = Vec::new();
    let mut i: usize = 0;
    assert(at@.take(0) =~= seq![]);
    assert(seen@.to_set() =~= Set::empty());
    while i < at.len()
        invariant
            i <= at@.len(),
            forall|j: int| 0 <= j < at@.len() ==> (#[trigger] at@[j]) < lines@.len(),
            seen@.no_duplicates(),
            seen@.to_set() == pages_at(lines@, at@.take(i as int)),
        decreases at@.len() - i,
    {
        let page: u32 = lines[at[i]].page;
        assert(at@.take(i + 1).drop_last() =~= at@.take(i as int));
        assert(at@.take(i + 1).last() == at@[i as int]);
        let mut known: bool = false;
        let mut k: usize = 0;
        while k < seen.len()
            invariant
                k <= seen@.len(),
                known <==> exists|j: int| 0 <= j < k && seen@[j] == page,
            decreases seen@.len() - k,
        {
            if seen[k] == page {
                known = true;
            }
            k = k + 1;
        }
        let ghost before = seen@;
        if !known {
            seen.push(page);
            assert forall|x: u32| seen@.to_set().contains(x) <==> before.to_set().insert(
                page,
            ).contains(x) by {
                if before.contains(x) {
                    let j = before.index_of(x);
                    assert(seen@[j] == x);
                }
                if x == page {
                    assert(seen@[before.len() as int] == x);
                }
            }
            assert(seen@.to_set() =~= before.to_set().insert(page));
        } else {
            assert(before.contains(page));
            assert(before.to_set().insert(page) =~= before.to_set());
        }
        i = i + 1;
    }
    proof {
        assert(at@.take(i as int) =~= at@);
        seen@.unique_seq_to_set();
    }
    seen.len()
}

/// Lists of line numbers as they are held, as plain contents.
pub open spec fn group_contents(groups: Seq<Vec<usize>>) -> Seq<Seq<usize>> {
    groups.map_values(|g: Vec<usize>| g@)
}

/// Finds the texts that may be running headers or footers: for each, the lines at which it occurs.
pub fn find_repeated_lines(lines: &Vec<EdgeLine>, page_count: u32) -> (r: Vec<Vec<usize>>)
    ensures
        group_contents(r@) == repeated(lines@, page_count),
{
    let mut out: Vec<Vec<usize>> = Vec::new();
    assert(group_contents(out@) =~= seq![]);
    if page_count < 3 {
        return out;
    }
    let norms = normalize_all(lines);
    let counted = find_counted(lines, &norms);
    let share: u64 = page_count as u64 * 30 / 100;
    let threshold: u64 = if share > 3 {
        share
    } else {
        3
    };
    let n: usize = lines.len();
    let ghost wanted = is_repeated(lines@, page_count);
    let ghost listed = |k: usize| occurrences(lines@, k as int);
    let mut i: usize = 0;
    assert(indices(0).filter(wanted).map_values(listed) =~= seq![]) by {
        reveal(Seq::filter);
    }
    while i < n
        invariant
            i <= n == lines@.len(),
            page_count >= 3,
            threshold == page_threshold(page_count),
            norms@.len() == lines@.len(),
            counted@.len() == lines@.len(),
            forall|j: int|
                0 <= j < lines@.len() ==> #[trigger] counted@[j] == is_counted(lines@, j),
            forall|j: int| 0 <= j < lines@.len() ==> (#[trigger] norms@[j])@ == norm_of(lines@[j]),
            wanted == is_repeated(lines@, page_count),
            listed == (|k: usize| occurrences(lines@, k as int)),
            group_contents(out@) == indices(i as nat).filter(wanted).map_values(listed),
        decreases n - i,
    {
        let ghost before = group_contents(out@);
        let ghost chosen = indices(i as nat).filter(wanted);
        assert(indices((i + 1) as nat) =~= indices(i as nat).push(i));
        assert(indices((i + 1) as nat).drop_last() =~= indices(i as nat));
        reveal(Seq::filter);
        assert(norms@[i as int]@ == norm_of(lines@[i as int]));
        if counted[i] {
            let at = find_occurrences(lines, &norms, &counted, i);
            proof {
                lemma_own_occurrence(lines@, i);
            }
            if at[0] == i && count_pages_at(lines, &at) as u64 >= threshold && !is_structural_text(
                norms[i].as_slice(),
            ) {
                let ghost added = at@;
                out.push(at);
                assert(group_contents(out@) =~= before.push(added));
                assert(indices((i + 1) as nat).filter(wanted) =~= chosen.push(i));
                assert(chosen.push(i).map_values(listed) =~= chosen.map_values(listed).push(
                    listed(i),
                ));
            }
        }
        i = i + 1;
    }
    out
}

/// A line that counts is among the occurrences of its own text.
proof fn lemma_own_occurrence(lines: Seq<EdgeLine>, k: usize)
    requires
        k < lines.len(),
        is_counted(lines, k as int),
    ensures
        occurrences(lines, k as int).len() > 0,
{
    let all = indices(lines.len());
    assert(all[k as int] == k);
    broadcast use vstd::seq_lib::group_filter_ensures;

    assert(all.contains(k));
    assert(all.filter(is_occurrence(lines, k as int)).contains(k));
}

/// Whether a line is a running header: it is at the edge of its page, and its text is that of one
/// of the given lines.
pub open spec fn is_header_line(lines: Seq<EdgeLine>, headers: Seq<usize>, i: int) -> bool {
    is_at_edge(lines, i) && exists|h: int|
        0 <= h < headers.len() && norm_of(lines[#[trigger] headers[h] as int]) == norm_of(lines[i])
}

/// Whether a line is kept.
pub open spec fn is_kept(lines: Seq<EdgeLine>, headers: Seq<usize>) -> spec_fn(usize) -> bool {
    |i: usize| !is_header_line(lines, headers, i as int)
}

/// The lines that are left without running headers and footers. `headers` holds one line for each
/// text that is one.
fn keep_lines(lines: &Vec<EdgeLine>, headers: &Vec<usize>) -> (r: Vec<usize>)
    requires
        forall|h: int| 0 <= h < headers@.len() ==> (#[trigger] headers@[h]) < lines@.len(),
    ensures
        r@ == indices(lines@.len()).filter(is_kept(lines@, headers@)),
{
    let norms = normalize_all(lines);
    let edges: Vec<bool> = find_edges(lines);
    let ghost wanted = is_kept(lines@, headers@);
    let n: usize = lines.len();
    let mut out: Vec<usize> = Vec::new();
    let mut i: usize = 0;
    assert(indices(0).filter(wanted) =~= seq![]) by {
        reveal(Seq::filter);
    }
    while i < n
        invariant
            i <= n == lines@.len(),
            norms@.len() == lines@.len(),
            forall|j: int| 0 <= j < lines@.len() ==> (#[trigger] norms@[j])@ == norm_of(lines@[j]),
            edges@.len() == lines@.len(),
            forall|j: int| 0 <= j < lines@.len() ==> #[trigger] edges@[j] == is_at_edge(lines@, j),
            forall|h: int| 0 <= h < headers@.len() ==> (#[trigger] headers@[h]) < lines@.len(),
            wanted == is_kept(lines@, headers@),
            out@ == indices(i as nat).filter(wanted),
        decreases n - i,
    {
        assert(indices((i + 1) as nat) =~= indices(i as nat).push(i));
        assert(indices((i + 1) as nat).drop_last() =~= indices(i as nat));
        reveal(Seq::filter);
        let mut found: bool = false;
        if edges[i] {
            let mut h: usize = 0;
            while h < headers.len()
                invariant
                    h <= headers@.len(),
                    i < n == lines@.len(),
                    norms@.len() == lines@.len(),
                    forall|j: int|
                        0 <= j < lines@.len() ==> (#[trigger] norms@[j])@ == norm_of(lines@[j]),
                    forall|j: int|
                        0 <= j < headers@.len() ==> (#[trigger] headers@[j]) < lines@.len(),
                    found <==> exists|j: int|
                        0 <= j < h && norm_of(lines@[#[trigger] headers@[j] as int]) == norm_of(
                            lines@[i as int],
                        ),
                decreases headers@.len() - h,
            {
                let k: usize = headers[h];
                assert(norms@[i as int]@ == norm_of(lines@[i as int]));
                assert(norms@[k as int]@ == norm_of(lines@[k as int]));
                if same_text(norms[k].as_slice(), norms[i].as_slice()) {
                    assert(norm_of(lines@[headers@[h as int] as int]) == norm_of(
                        lines@[i as int],
                    ));
                    found = true;
                }
                h = h + 1;
            }
        }
        assert(found == is_header_line(lines@, headers@, i as int));
        if !found {
            out.push(i);
        }
        i = i + 1;
    }
    out
}

/// The answers that `steady` gives for the texts that may be running headers.
pub open spec fn are_steady<F: Fn(&Vec<usize>) -> bool>(
    steady: F,
    groups: Seq<Vec<usize>>,
    answers: Seq<bool>,
) -> bool {
    &&& answers.len() == groups.len()
    &&& forall|g: int|
        0 <= g < groups.len() ==> steady.ensures((&(#[trigger] groups[g]),), answers[g])
}

/// The first line of each text that is a running header, by the answers for each text.
pub open spec fn headers_among(groups: Seq<Seq<usize>>, answers: Seq<bool>) -> Seq<usize>
    decreases groups.len(),
{
    if groups.len() == 0 {
        seq![]
    } else {
        let before = headers_among(groups.drop_last(), answers);
        if answers[groups.len() - 1] {
            before.push(groups.last().first())
        } else {
            before
        }
    }
}

/// Whether a line is kept whatever the heights of the others with its text are: it is in the body
/// of its page, or short, or a separator, or a heading or list item, or its text is on too few pages.
pub open spec fn is_never_stripped(lines: Seq<EdgeLine>, page_count: u32, i: int) -> bool {
    ||| page_count < 3
    ||| !is_at_edge(lines, i)
    ||| norm_of(lines[i]).len() < 10
    ||| is_one_character(norm_of(lines[i]))
    ||| is_structural(norm_of(lines[i]))
    ||| pages_at(lines, occurrences(lines, i)).len() < page_threshold(page_count)
}

/// Strips running headers and footers: gives the lines that are left, in order. Of the texts that
/// may be running headers, those are whose lines stand at the same height on their pages, which
/// `steady` says of the lines at which a text occurs.
pub fn strip_repeated_lines<F: Fn(&Vec<usize>) -> bool>(
    lines: &Vec<EdgeLine>,
    page_count: u32,
    steady: F,
) -> (r: Vec<usize>)
    requires
        forall|g: &Vec<usize>| steady.requires((g,)),
    ensures
        exists|groups: Seq<Vec<usize>>, answers: Seq<bool>| #[trigger]
            are_steady(steady, groups, answers) && group_contents(groups) == repeated(
                lines@,
                page_count,
            ) && r@ == indices(lines@.len()).filter(
                is_kept(lines@, headers_among(repeated(lines@, page_count), answers)),
            ),
        page_count < 3 ==> r@ == indices(lines@.len()),
        forall|i: usize|
            i < lines@.len() && #[trigger] is_never_stripped(lines@, page_count, i as int)
                ==> r@.contains(i),
{
    let groups = find_repeated_lines(lines, page_count);
    let ghost all = repeated(lines@, page_count);
    let mut headers: Vec<usize> = Vec::new();
    let ghost mut answers: Seq<bool> = seq![];
    let mut g: usize = 0;
    assert(all.take(0) =~= seq![]);
    while g < groups.len()
        invariant
            g <= groups@.len(),
            answers.len() == g,
            all == repeated(lines@, page_count),
            group_contents(groups@) == all,
            forall|k: &Vec<usize>| steady.requires((k,)),
            forall|k: int|
                0 <= k < g ==> steady.ensures((&(#[trigger] groups@[k]),), answers[k]),
            headers@ == headers_among(all.take(g as int), answers),
            forall|h: int| 0 <= h < headers@.len() ==> (#[trigger] headers@[h]) < lines@.len(),
        decreases groups@.len() - g,
    {
        let is_steady: bool = steady(&groups[g]);
        proof {
            assert(all[g as int] == groups@[g as int]@);
            lemma_groups_are_lines(lines@, page_count, g as int);
            let more = answers.push(is_steady);
            assert(all.take(g + 1).drop_last() =~= all.take(g as int));
            lemma_headers_by_answers(all.take(g as int), answers, more);
            answers = more;
        }
        if is_steady {
            headers.push(groups[g][0]);
        }
        g = g + 1;
    }
    assert(all.take(g as int) =~= all);
    let out = keep_lines(lines, &headers);
    proof {
        assert(are_steady(steady, groups@, answers));
        if page_count < 3 {
            assert(headers@.len() == 0);
            lemma_all_kept(indices(lines@.len()), is_kept(lines@, headers@));
        }
        assert forall|i: usize|
            i < lines@.len() && #[trigger] is_never_stripped(
                lines@,
                page_count,
                i as int,
            ) implies out@.contains(i) by {
            lemma_never_stripped(lines@, page_count, answers, i);
        }
    }
    out
}

/// Each text that may be a running header has its occurrences among the lines.
proof fn lemma_groups_are_lines(lines: Seq<EdgeLine>, page_count: u32, g: int)
    requires
        0 <= g < repeated(lines, page_count).len(),
    ensures
        repeated(lines, page_count)[g].len() > 0,
        repeated(lines, page_count)[g].first() < lines.len(),
        is_repeated(lines, page_count)(repeated(lines, page_count)[g].first()),
{
    let all = indices(lines.len());
    let wanted = is_repeated(lines, page_count);
    broadcast use vstd::seq_lib::group_filter_ensures;

    let k = all.filter(wanted)[g];
    lemma_filter_member(all, wanted, g);
    assert(wanted(k));
    lemma_own_occurrence(lines, k);
}

/// Answers for further texts change nothing for the first ones.
proof fn lemma_headers_by_answers(groups: Seq<Seq<usize>>, a: Seq<bool>, b: Seq<bool>)
    requires
        groups.len() <= a.len(),
        groups.len() <= b.len(),
        forall|k: int| 0 <= k < groups.len() ==> a[k] == b[k],
    ensures
        headers_among(groups, a) == headers_among(groups, b),
    decreases groups.len(),
{
    if groups.len() > 0 {
        lemma_headers_by_answers(groups.drop_last(), a, b);
    }
}

/// The first line of a running header is that of one of the texts.
proof fn lemma_header_is_first(groups: Seq<Seq<usize>>, answers: Seq<bool>, h: int) -> (g: int)
    requires
        0 <= h < headers_among(groups, answers).len(),
    ensures
        0 <= g < groups.len(),
        headers_among(groups, answers)[h] == groups[g].first(),
    decreases groups.len(),
{
    if h < headers_among(groups.drop_last(), answers).len() {
        lemma_header_is_first(groups.drop_last(), answers, h)
    } else {
        groups.len() - 1
    }
}

/// A filter that admits everything leaves everything.
proof fn lemma_all_kept(s: Seq<usize>, wanted: spec_fn(usize) -> bool)
    requires
        forall|i: int| 0 <= i < s.len() ==> wanted(#[trigger] s[i]),
    ensures
        s.filter(wanted) == s,
    decreases s.len(),
{
    reveal(Seq::filter);
    if s.len() > 0 {
        lemma_all_kept(s.drop_last(), wanted);
        assert(s.drop_last().push(s.last()) =~= s);
        assert(wanted(s[s.len() - 1]));
    }
}

/// Lines in the body of a page, short lines, separators, headings, list items, and lines whose text
/// is on few pages are never stripped.
pub proof fn lemma_never_stripped(
    lines: Seq<EdgeLine>,
    page_count: u32,
    answers: Seq<bool>,
    i: usize,
)
    requires
        i < lines.len(),
        is_never_stripped(lines, page_count, i as int),
    ensures
        indices(lines.len()).filter(
            is_kept(lines, headers_among(repeated(lines, page_count), answers)),
        ).contains(i),
{
    let all = indices(lines.len());
    let headers = headers_among(repeated(lines, page_count), answers);
    if is_header_line(lines, headers, i as int) {
        let h = choose|h: int|
            0 <= h < headers.len() && norm_of(lines[#[trigger] headers[h] as int]) == norm_of(
                lines[i as int],
            );
        let g = lemma_header_is_first(repeated(lines, page_count), answers, h);
        lemma_groups_are_lines(lines, page_count, g);
        let k = headers[h] as int;
        assert(is_occurrence(lines, k) =~= is_occurrence(lines, i as int));
    }
    assert(all[i as int] == i);
    broadcast use vstd::seq_lib::group_filter_ensures;

    assert(all.contains(i));
}

// ---------------------------------------------------------------------------------------------
// Drop caps
// ---------------------------------------------------------------------------------------------

/// A line as far as it may be a drop cap or be continued by one: its text, its page, and whether it
/// is set at least two and a half times as large as the body text.
#[derive(Debug, Clone)]
pub struct CapLine {
    pub text: String,
    pub page: u32,
    pub is_large: bool,
}

/// The first character of a text that is not white space.
pub open spec fn initial_of(s: Seq<char>) -> Option<char> {
    if trimmed(s).len() > 0 {
        Some(trimmed(s).first())
    } else {
        None
    }
}

/// Whether a line is a drop cap: a single large capital letter.
pub open spec fn is_drop_cap(line: CapLine) -> bool {
    line.is_large && trimmed(line.text@).len() == 1 && is_upper(trimmed(line.text@).first())
}

/// The lines that are kept, by number, with the first character that each has by now, and the
/// capitals that have been put in front of lines.
pub struct Caps {
    pub kept: Seq<usize>,
    pub initials: Seq<Option<char>>,
    pub merges: Seq<(usize, char)>,
}

/// Whether a first character is a small letter.
pub open spec fn starts_small(initial: Option<char>) -> bool {
    initial matches Some(c) && is_lower(c)
}

/// Whether the kept line at position `p` starts a paragraph whose first letter is missing: it is on
/// the given page and starts with a small letter, and the line before it, if there is one, is not
/// blank and does not.
pub open spec fn lacks_capital(lines: Seq<CapLine>, caps: Caps, page: u32, p: int) -> bool {
    &&& lines[caps.kept[p] as int].page == page
    &&& starts_small(caps.initials[p])
    &&& p == 0 || (caps.initials[p - 1] is Some && !starts_small(caps.initials[p - 1]))
}

/// The first kept line, from position `p` on, that lacks its capital.
pub open spec fn cap_target(lines: Seq<CapLine>, caps: Caps, page: u32, p: int) -> Option<int>
    decreases caps.kept.len() - p,
{
    if p < 0 || p >= caps.kept.len() {
        None
    } else if lacks_capital(lines, caps, page, p) {
        Some(p)
    } else {
        cap_target(lines, caps, page, p + 1)
    }
}

/// The outcome for the first `n` lines. A drop cap is taken out; where a line before it lacks its
/// capital, the letter goes in front of the first such line.
pub open spec fn after_caps(lines: Seq<CapLine>, n: int) -> Caps
    decreases n,
{
    if n <= 0 {
        Caps { kept: seq![], initials: seq![], merges: seq![] }
    } else {
        let caps = after_caps(lines, n - 1);
        let line = lines[n - 1];
        if is_drop_cap(line) {
            let c = trimmed(line.text@).first();
            match cap_target(lines, caps, line.page, 0) {
                Some(p) => Caps {
                    kept: caps.kept,
                    initials: caps.initials.update(p, Some(c)),
                    merges: caps.merges.push((caps.kept[p], c)),
                },
                None => caps,
            }
        } else {
            Caps {
                kept: caps.kept.push((n - 1) as usize),
                initials: caps.initials.push(initial_of(line.text@)),
                merges: caps.merges,
            }
        }
    }
}

proof fn lemma_cap_target(lines: Seq<CapLine>, caps: Caps, page: u32, p: int)
    requires
        0 <= p,
    ensures
        cap_target(lines, caps, page, p) matches Some(q) ==> p <= q < caps.kept.len(),
    decreases caps.kept.len() - p,
{
    if p < caps.kept.len() && !lacks_capital(lines, caps, page, p) {
        lemma_cap_target(lines, caps, page, p + 1);
    }
}

proof fn lemma_caps_lengths(lines: Seq<CapLine>, n: int)
    requires
        0 <= n <= lines.len(),
    ensures
        after_caps(lines, n).kept.len() == after_caps(lines, n).initials.len(),
        forall|p: int|
            0 <= p < after_caps(lines, n).kept.len() ==> (#[trigger] after_caps(lines, n).kept[p])
                < n || n > usize::MAX,
    decreases n,
{
    if n > 0 {
        lemma_caps_lengths(lines, n - 1);
        lemma_cap_target(lines, after_caps(lines, n - 1), lines[n - 1].page, 0);
    }
}

/// The first kept line that lacks its capital.
fn find_cap_target(
    lines: &Vec<CapLine>,
    kept: &Vec<usize>,
    initials: &Vec<Option<char>>,
    page: u32,
    Ghost(caps): Ghost<Caps>,
) -> (r: Option<usize>)
    requires
        caps.kept == kept@,
        caps.initials == initials@,
        kept@.len() == initials@.len(),
        forall|p: int| 0 <= p < kept@.len() ==> (#[trigger] kept@[p]) < lines@.len(),
    ensures
        match r {
            Some(p) => cap_target(lines@, caps, page, 0) == Some(p as int) && p < kept@.len(),
            None => cap_target(lines@, caps, page, 0) is None,
        },
{
    let mut p: usize = 0;
    while p < kept.len()
        invariant
            p <= kept@.len(),
            caps.kept == kept@,
            caps.initials == initials@,
            kept@.len() == initials@.len(),
            forall|q: int| 0 <= q < kept@.len() ==> (#[trigger] kept@[q]) < lines@.len(),
            cap_target(lines@, caps, page, p as int) == cap_target(lines@, caps, page, 0),
        decreases kept@.len() - p,
    {
        let small: bool = match initials[p] {
            Some(c) => c.is_lowercase(),
            None => false,
        };
        let fresh: bool = p == 0 || match initials[p - 1] {
            Some(c) => !c.is_lowercase(),
            None => false,
        };
        if lines[kept[p]].page == page && small && fresh {
            return Some(p);
        }
        p = p + 1;
    }
    None
}

/// Takes drop caps out of the lines and finds the lines whose first letters they are. Returns the
/// numbers of the lines that are kept, and the capitals with the lines that they go in front of.
/// In the order of the page a drop cap may come behind its line.
pub fn merge_drop_caps(lines: &Vec<CapLine>) -> (r: (Vec<usize>, Vec<(usize, char)>))
    ensures
        r.0@ == after_caps(lines@, lines@.len() as int).kept,
        r.1@ == after_caps(lines@, lines@.len() as int).merges,
{
    let mut kept: Vec<usize> = Vec::new();
    let mut initials: Vec<Option<char>> = Vec::new();
    let mut merges: Vec<(usize, char)> = Vec::new();
    let mut i: usize = 0;
    assert(kept@ =~= seq![] && initials@ =~= seq![] && merges@ =~= seq![]);
    while i < lines.len()
        invariant
            i <= lines@.len(),
            (Caps { kept: kept@, initials: initials@, merges: merges@ }) == after_caps(
                lines@,
                i as int,
            ),
        decreases lines@.len() - i,
    {
        let ghost caps = after_caps(lines@, i as int);
        proof {
            lemma_caps_lengths(lines@, i as int);
        }
        let chars = chars_of(lines[i].text.as_str());
        let t = trim(chars.as_slice());
        let is_cap: bool = lines[i].is_large && t.len() == 1 && t[0].is_uppercase();
        if is_cap {
            let c: char = t[0];
            match find_cap_target(lines, &kept, &initials, lines[i].page, Ghost(caps)) {
                Some(p) => {
                    initials.set(p, Some(c));
                    merges.push((kept[p], c));
                },
                None => {},
            }
        } else {
            let initial: Option<char> = if t.len() > 0 {
                Some(t[0])
            } else {
                None
            };
            kept.push(i);
            initials.push(initial);
        }
        i = i + 1;
    }
    (kept, merges)
}

/// A drop cap is never kept as a line of its own, and every other line is kept.
pub proof fn lemma_drop_caps_are_taken_out(lines: Seq<CapLine>, n: int, i: int)
    requires
        0 <= i < n <= lines.len(),
        lines.len() <= usize::MAX,
    ensures
        after_caps(lines, n).kept.contains(i as usize) <==> !is_drop_cap(lines[i]),
    decreases n,
{
    lemma_caps_lengths(lines, n - 1);
    let before = after_caps(lines, n - 1).kept;
    let now = after_caps(lines, n).kept;
    if i < n - 1 {
        lemma_drop_caps_are_taken_out(lines, n - 1, i);
        if before.contains(i as usize) {
            let k = before.index_of(i as usize);
            assert(now[k] == i);
        }
        if now.contains(i as usize) {
            let k = now.index_of(i as usize);
            assert(k < before.len());
            assert(before[k] == i);
        }
    } else {
        if !is_drop_cap(lines[i]) {
            assert(now[before.len() as int] == i);
        } else if now.contains(i as usize) {
            let k = now.index_of(i as usize);
            assert(before[k] < n - 1);
        }
    }
}

// ---------------------------------------------------------------------------------------------
// Headings over several lines
// ---------------------------------------------------------------------------------------------

/// A line as far as it may be part of a heading: its page, and its level where it is a heading.
#[derive(Debug, Clone, Copy, PartialEq, Eq, Structural)]
pub struct HeadingLine {
    pub page: u32,
    pub level: Option<u8>,
}

/// Whether two lines may be parts of one heading: headings of the same level on the same page.
pub open spec fn may_continue(head: HeadingLine, line: HeadingLine) -> bool {
    head.page == line.page && head.level == line.level && line.level is Some
}

/// The last line before `i` that starts anew, by the given marks.
pub open spec fn head_of(starts: Seq<bool>, i: int) -> int
    decreases i,
{
    if i <= 1 || i - 1 >= starts.len() || starts[i - 1] {
        i - 1
    } else {
        head_of(starts, i - 1)
    }
}

/// Joins headings that run over several lines: says of each line whether it starts anew or goes on
/// with the line that last started anew. `close` says of two lines whether the second is right below
/// the first.
pub fn merge_heading_lines<F: Fn(usize, usize) -> bool>(
    lines: &Vec<HeadingLine>,
    close: F,
) -> (r: Vec<bool>)
    requires
        forall|a: usize, b: usize| close.requires((a, b)),
    ensures
        r@.len() == lines@.len(),
        forall|i: int|
            0 <= i < lines@.len() ==> {
                let head = head_of(r@, i);
                if i > 0 && may_continue(lines@[head], lines@[i]) {
                    close.ensures((head as usize, i as usize), !(#[trigger] r@[i]))
                } else {
                    r@[i]
                }
            },
{
    let mut starts: Vec<bool> = Vec::new();
    let mut head: usize = 0;
    let mut i: usize = 0;
    while i < lines.len()
        invariant
            i <= lines@.len(),
            starts@.len() == i,
            i > 0 ==> head < i && head == head_of(starts@, i as int),
            forall|a: usize, b: usize| close.requires((a, b)),
            forall|k: int|
                0 <= k < i ==> {
                    let h = head_of(starts@, k);
                    if k > 0 && may_continue(lines@[h], lines@[k]) {
                        close.ensures((h as usize, k as usize), !(#[trigger] starts@[k]))
                    } else {
                        starts@[k]
                    }
                },
        decreases lines@.len() - i,
    {
        let starts_anew: bool = if i == 0 {
            true
        } else {
            let a = lines[head];
            let b = lines[i];
            if a.page == b.page && b.level.is_some() && same_level(a.level, b.level) {
                !close(head, i)
            } else {
                true
            }
        };
        let ghost before = starts@;
        starts.push(starts_anew);
        proof {
            assert forall|k: int| 0 <= k <= i implies head_of(starts@, k) == head_of(before, k) by {
                lemma_head_of_push(before, starts_anew, k);
            }
        }
        if starts_anew {
            head = i;
        }
        i = i + 1;
        proof {
            assert forall|k: int| 0 <= k < i implies {
                let h = head_of(starts@, k);
                if k > 0 && may_continue(lines@[h], lines@[k]) {
                    close.ensures((h as usize, k as usize), !(#[trigger] starts@[k]))
                } else {
                    starts@[k]
                }
            } by {
                if k < i - 1 {
                    assert(starts@[k] == before[k]);
                }
            }
        }
    }
    starts
}

proof fn lemma_head_of_push(starts: Seq<bool>, b: bool, k: int)
    requires
        0 <= k <= starts.len(),
    ensures
        head_of(starts.push(b), k) == head_of(starts, k),
    decreases k,
{
    if k > 1 && !starts[k - 1] {
        lemma_head_of_push(starts, b, k - 1);
    }
}

/// Whether two levels are the same.
fn same_level(a: Option<u8>, b: Option<u8>) -> (r: bool)
    ensures
        r == (a == b),
{
    match (a, b) {
        (Some(x), Some(y)) => x == y,
        (None, None) => true,
        _ => false,
    }
}

} // verus!
