//! What Markdown says of a document: laws on headings, lists, code, tables and page breaks.

use crate::classify::{
    code_char_count, digits_end, has_keyword, header_level, is_code_char, is_item, is_round_bullet,
    item_markdown, looks_like_code, tier_of,
};
use crate::convert::{
    are_tiers, block_keys, block_slot, decimal, document_markdown, hashes, is_common_size, pages_of,
    size_count, stands_before, style_of, Block, DocLine, Pages, Style,
};
use crate::layout::{lemma_sorted_members, Spot};
use crate::markdown::{
    image_text, is_free, is_inside, is_outside, row_markdown, rows_markdown, rule_markdown,
    search_groups, MarkdownOptions,
};
use crate::numbers::order_of;
use crate::ordering::{indices, lemma_sorted_by_keys, sorted_by_keys};
use crate::spacing::is_digit;
use crate::text::{begins_with, trimmed};
use vstd::prelude::*;

verus! {

// ---------------------------------------------------------------------------------------------
// Headings
// ---------------------------------------------------------------------------------------------

/// Headings by the ratio of sizes: from twice the size of body text on the first level, from one and a
/// half times the second, from one and a quarter the third, from six fifths the fourth; what is smaller
/// is no heading.
pub proof fn lemma_headings_by_ratio(size: u32, base: u32)
    requires
        base > 0,
    ensures
        size >= 2 * base ==> header_level(size, base, seq![]) == Some(1u8),
        3 * base <= 2 * size && size < 2 * base ==> header_level(size, base, seq![]) == Some(2u8),
        5 * base <= 4 * size && 2 * size < 3 * base ==> header_level(size, base, seq![]) == Some(3u8),
        6 * base <= 5 * size && 4 * size < 5 * base ==> header_level(size, base, seq![]) == Some(4u8),
        5 * size < 6 * base ==> header_level(size, base, seq![]) is None,
{
}

/// Headings by their sizes: where the sizes of headings are known, from the largest on, a text of the
/// size with number `k` is a heading of the level with this number, counted from 1; from the fourth
/// size on all are of the fourth level.
pub proof fn lemma_headings_by_tier(base: u32, tiers: Seq<u32>, k: int)
    requires
        base > 0,
        0 <= k < tiers.len(),
        forall|i: int, j: int| 0 <= i < j < tiers.len() ==> #[trigger] tiers[i] > #[trigger] tiers[j],
        6 * base <= 5 * tiers[k],
    ensures
        k < 4 ==> header_level(tiers[k], base, tiers) == Some((k + 1) as u8),
        k >= 4 ==> header_level(tiers[k], base, tiers) == Some(4u8),
{
    lemma_tier(tiers[k], tiers, 0, k);
}

proof fn lemma_tier(size: u32, tiers: Seq<u32>, from: int, k: int)
    requires
        0 <= from <= k < tiers.len(),
        size == tiers[k],
        forall|i: int, j: int| 0 <= i < j < tiers.len() ==> #[trigger] tiers[i] > #[trigger] tiers[j],
    ensures
        tier_of(size, tiers, from) == k,
    decreases k - from,
{
    if from < k {
        assert(tiers[from] > tiers[k]);
        lemma_tier(size, tiers, from + 1, k);
    }
}

/// The sizes of headings are those that occur and are at least six fifths of the size of body text;
/// body text has the size that occurs most often.
pub proof fn lemma_sizes_of_headings(sizes: Seq<u32>, base: u32, tiers: Seq<u32>, k: int)
    requires
        0 <= k < sizes.len(),
        are_tiers(sizes, base, tiers),
    ensures
        6 * base <= 5 * sizes[k] ==> tiers.contains(sizes[k]),
        5 * sizes[k] < 6 * base ==> !tiers.contains(sizes[k]),
        is_common_size(sizes, base) ==> sizes.contains(base) && size_count(sizes, sizes[k])
            <= size_count(sizes, base),
{
    assert(sizes.contains(sizes[k]));
}

// ---------------------------------------------------------------------------------------------
// Lists
// ---------------------------------------------------------------------------------------------

proof fn lemma_all_digits(s: Seq<char>, i: int, e: int)
    requires
        0 <= i <= e <= s.len(),
        forall|k: int| i <= k < e ==> is_digit(#[trigger] s[k]),
        e < s.len() ==> !is_digit(s[e]),
    ensures
        digits_end(s, i) == e,
    decreases e - i,
{
    if i < e {
        lemma_all_digits(s, i + 1, e);
    }
}

/// Lines with a bullet are list items, and in Markdown their bullet is a hyphen; so are lines that start
/// with a number or a single letter and a full stop or a bracket.
pub proof fn lemma_what_list_items_are(rest: Seq<char>, digits: Seq<char>, letter: char)
    requires
        digits.len() > 0,
        forall|k: int| 0 <= k < digits.len() ==> is_digit(#[trigger] digits[k]),
        'a' <= letter <= 'z' || 'A' <= letter <= 'Z',
    ensures
        forall|c: char|
            #![trigger is_round_bullet(c)]
            c == '\u{2022}' || c == '\u{25CB}' || c == '\u{25CF}' || c == '\u{25E6}' ==> is_item(
                seq![c] + rest,
            ) && item_markdown(seq![c] + rest) == seq!['-', ' '] + trimmed(rest),
        is_item(seq!['-', ' '] + rest),
        is_item(seq!['*', ' '] + rest),
        item_markdown(seq!['-', ' '] + rest) == seq!['-', ' '] + rest,
        is_item(digits + seq!['.', ' '] + rest),
        is_item(digits + seq![')', ' '] + rest),
        is_item(seq!['('] + digits + seq![')'] + rest),
        item_markdown(digits + seq!['.', ' '] + rest) == digits + seq!['.', ' '] + rest,
        is_item(seq![letter, '.', ' '] + rest),
        is_item(seq![letter, ')', ' '] + rest),
        is_item(seq!['(', letter, ')'] + rest),
{
    assert forall|c: char|
        #![trigger is_round_bullet(c)]
        c == '\u{2022}' || c == '\u{25CB}' || c == '\u{25CF}' || c == '\u{25E6}' implies is_item(
        seq![c] + rest,
    ) && item_markdown(seq![c] + rest) == seq!['-', ' '] + trimmed(rest) by {
        assert((seq![c] + rest).skip(1) =~= rest);
    }
    let n = digits.len() as int;
    let a = digits + seq!['.', ' '] + rest;
    let b = digits + seq![')', ' '] + rest;
    let c = seq!['('] + digits + seq![')'] + rest;
    assert(is_digit(digits[0]));
    assert(!is_digit('.') && !is_digit(')') && !is_digit(letter) && !is_digit('('));
    assert forall|k: int| 0 <= k < n implies is_digit(#[trigger] a[k]) by {
        assert(a[k] == digits[k]);
    }
    assert forall|k: int| 0 <= k < n implies is_digit(#[trigger] b[k]) by {
        assert(b[k] == digits[k]);
    }
    assert forall|k: int| 1 <= k < n + 1 implies is_digit(#[trigger] c[k]) by {
        assert(c[k] == digits[k - 1]);
    }
    assert(a[n] == '.' && a[n + 1] == ' ');
    assert(b[n] == ')' && b[n + 1] == ' ');
    assert(c[0] == '(' && c[n + 1] == ')');
    lemma_all_digits(a, 0, n);
    lemma_all_digits(b, 0, n);
    lemma_all_digits(c, 1, n + 1);
    assert(a[0] == digits[0]);
    let d = seq![letter, '.', ' '] + rest;
    let e = seq![letter, ')', ' '] + rest;
    let f = seq!['(', letter, ')'] + rest;
    assert(d[0] == letter && d[1] == '.' && d[2] == ' ');
    assert(e[0] == letter && e[1] == ')' && e[2] == ' ');
    assert(f[0] == '(' && f[1] == letter && f[2] == ')');
    lemma_all_digits(d, 0, 0);
    lemma_all_digits(e, 0, 0);
    lemma_all_digits(f, 1, 1);
}

/// A line that starts with a word of two or more letters is no list item, nor is one that starts with a
/// decimal number, nor one that starts with a hyphen or an asterisk right before a letter.
pub proof fn lemma_what_list_items_are_not(s: Seq<char>)
    requires
        s.len() >= 3,
    ensures
        is_plain_letter(s[0]) && is_plain_letter(s[1]) ==> !is_item(s),
        is_digit(s[0]) && s[1] == '.' && is_digit(s[2]) ==> !is_item(s),
        (s[0] == '-' || s[0] == '*') && is_plain_letter(s[1]) ==> !is_item(s),
{
    assert(!is_digit('.') && !is_digit('-') && !is_digit('*'));
    if is_plain_letter(s[0]) {
        lemma_all_digits(s, 0, 0);
    }
    if is_digit(s[0]) && s[1] == '.' {
        lemma_all_digits(s, 0, 1);
    }
    if s[0] == '-' || s[0] == '*' {
        lemma_all_digits(s, 0, 0);
    }
}

/// Whether a character is an ASCII letter.
pub open spec fn is_plain_letter(c: char) -> bool {
    'a' <= c <= 'z' || 'A' <= c <= 'Z'
}

// ---------------------------------------------------------------------------------------------
// Code
// ---------------------------------------------------------------------------------------------

proof fn lemma_no_code_chars(s: Seq<char>)
    requires
        forall|k: int| 0 <= k < s.len() ==> !is_code_char(#[trigger] s[k]),
    ensures
        code_char_count(s) == 0,
    decreases s.len(),
{
    if s.len() > 0 {
        lemma_no_code_chars(s.drop_last());
    }
}

proof fn lemma_all_code_chars(s: Seq<char>)
    requires
        forall|k: int| 0 <= k < s.len() ==> is_code_char(#[trigger] s[k]),
    ensures
        code_char_count(s) == s.len(),
    decreases s.len(),
{
    if s.len() > 0 {
        lemma_all_code_chars(s.drop_last());
    }
}

proof fn lemma_begins(word: Seq<char>, rest: Seq<char>)
    ensures
        begins_with(word + rest, word),
{
    assert((word + rest).subrange(0, word.len() as int) =~= word);
}

/// A line looks like code where it starts with a keyword, and where more than one character in five is
/// a bracket, a semicolon, an equals sign or an angle bracket; without either it does not.
pub proof fn lemma_what_looks_like_code(rest: Seq<char>, signs: Seq<char>, words: Seq<char>)
    requires
        forall|k: int|
            0 <= k < signs.len() ==> (#[trigger] signs[k]) == '{' || signs[k] == '}' || signs[k]
                == '(' || signs[k] == ')' || signs[k] == '[' || signs[k] == ']' || signs[k] == ';'
                || signs[k] == '=' || signs[k] == '<' || signs[k] == '>',
        forall|k: int|
            0 <= k < words.len() ==> is_plain_letter(#[trigger] words[k]) || words[k] == ' '
                || words[k] == '.' || words[k] == ',',
    ensures
        looks_like_code("import "@ + rest),
        looks_like_code("export "@ + rest),
        looks_like_code("const "@ + rest),
        looks_like_code("let "@ + rest),
        looks_like_code("function "@ + rest),
        looks_like_code("class "@ + rest),
        looks_like_code("def "@ + rest),
        looks_like_code("pub fn "@ + rest),
        looks_like_code("async fn "@ + rest),
        looks_like_code("impl "@ + rest),
        5 * signs.len() > signs.len() + words.len() ==> looks_like_code(words + signs),
        5 * signs.len() <= signs.len() + words.len() && !has_keyword(words + signs)
            ==> !looks_like_code(words + signs),
{
    lemma_begins("import "@, rest);
    lemma_begins("export "@, rest);
    lemma_begins("const "@, rest);
    lemma_begins("let "@, rest);
    lemma_begins("function "@, rest);
    lemma_begins("class "@, rest);
    lemma_begins("def "@, rest);
    lemma_begins("pub fn "@, rest);
    lemma_begins("async fn "@, rest);
    lemma_begins("impl "@, rest);
    assert forall|k: int| 0 <= k < signs.len() implies is_code_char(#[trigger] signs[k]) by {}
    assert forall|k: int| 0 <= k < words.len() implies !is_code_char(#[trigger] words[k]) by {
        assert(is_plain_letter(words[k]) || words[k] == ' ' || words[k] == '.' || words[k] == ',');
    }
    lemma_all_code_chars(signs);
    lemma_no_code_chars(words);
    lemma_code_chars_add(words, signs);
}

proof fn lemma_code_chars_add(a: Seq<char>, b: Seq<char>)
    ensures
        code_char_count(a + b) == code_char_count(a) + code_char_count(b),
    decreases b.len(),
{
    if b.len() > 0 {
        lemma_code_chars_add(a, b.drop_last());
        assert((a + b).drop_last() =~= a + b.drop_last());
    } else {
        assert(a + b =~= a);
    }
}

// ---------------------------------------------------------------------------------------------
// Documents
// ---------------------------------------------------------------------------------------------

/// What separates the line of a page from that of the page before.
pub open spec fn page_break(last: u32, next: u32, markers: bool) -> Seq<char> {
    if last == next {
        seq![]
    } else if markers {
        seq!['\n'] + "<!-- Page "@ + decimal(next as nat) + " -->\n\n"@
    } else {
        seq!['\n']
    }
}

/// What is written for a line where code is not detected: a heading with as many number signs as its
/// level, a list item as Markdown, any other text as it is, each with a line break behind it.
pub open spec fn line_markdown(line: DocLine, style: Style) -> Seq<char> {
    let t = trimmed(line.text@);
    let level = header_level(line.size, style.base, style.tiers);
    if t.len() == 0 {
        seq!['\n']
    } else if style.headers && level is Some {
        Seq::new(level->0 as nat, |i: int| '#') + seq![' '] + t + seq!['\n']
    } else if style.lists && is_item(t) {
        item_markdown(t) + seq!['\n']
    } else {
        t + seq!['\n']
    }
}

proof fn lemma_order_of_none()
    ensures
        sorted_by_keys(indices(0), block_keys(seq![])) == Seq::<usize>::empty(),
{
    lemma_sorted_by_keys(indices(0), block_keys(seq![]));
    assert(sorted_by_keys(indices(0), block_keys(seq![])) =~= seq![]);
}

proof fn lemma_prefix_of_lines(lines: Seq<DocLine>, more: Seq<DocLine>, style: Style, n: int)
    requires
        0 <= n <= lines.len(),
        n <= more.len(),
        forall|k: int| 0 <= k < n ==> lines[k] == more[k],
    ensures
        pages_of(lines, seq![], seq![], style, n) == pages_of(more, seq![], seq![], style, n),
    decreases n,
{
    if n > 0 {
        lemma_prefix_of_lines(lines, more, style, n - 1);
    }
}

proof fn lemma_never_in_code(lines: Seq<DocLine>, style: Style, n: int)
    requires
        !style.code,
        0 <= n <= lines.len(),
    ensures
        !pages_of(lines, seq![], seq![], style, n).in_code,
        pages_of(lines, seq![], seq![], style, n).page == if n == 0 {
            None
        } else {
            Some(lines[n - 1].spot.page)
        },
    decreases n,
{
    if n > 0 {
        lemma_never_in_code(lines, style, n - 1);
    }
}

/// A document grows line by line: where code is not detected, the Markdown of lines with one more is
/// that of the lines, a page break where the line is on another page, and what is written for the line.
/// The Markdown of no line is empty.
pub proof fn lemma_documents_grow_by_lines(lines: Seq<DocLine>, line: DocLine, style: Style)
    requires
        !style.code,
    ensures
        document_markdown(seq![], seq![], style) == Seq::<char>::empty(),
        document_markdown(seq![line], seq![], style) == line_markdown(line, style),
        lines.len() > 0 ==> document_markdown(lines.push(line), seq![], style) == document_markdown(
            lines,
            seq![],
            style,
        ) + page_break(lines.last().spot.page, line.spot.page, style.markers) + line_markdown(
            line,
            style,
        ),
{
    lemma_order_of_none();
    let one = seq![line];
    reveal_with_fuel(pages_of, 2);
    lemma_written(Pages { text: seq![], in_code: false, page: None }, line, style);
    assert(document_markdown(one, seq![], style) =~= line_markdown(line, style));
    if lines.len() > 0 {
        let more = lines.push(line);
        let n = lines.len() as int;
        lemma_prefix_of_lines(lines, more, style, n);
        lemma_never_in_code(lines, style, n);
        lemma_never_in_code(more, style, n + 1);
        let before = pages_of(lines, seq![], seq![], style, n);
        lemma_written(before, line, style);
        assert(document_markdown(more, seq![], style) =~= document_markdown(lines, seq![], style)
            + page_break(lines.last().spot.page, line.spot.page, style.markers) + line_markdown(
            line,
            style,
        ));
    }
}

proof fn lemma_written(pages: Pages, line: DocLine, style: Style)
    requires
        !style.code,
        !pages.in_code,
    ensures
        pages.with(line, style).text == pages.text + (match pages.page {
            Some(p) => page_break(p, line.spot.page, style.markers),
            None => seq![],
        }) + line_markdown(line, style),
        !pages.with(line, style).in_code,
{
    let page = line.spot.page;
    let here = pages.on_page(page, style.markers);
    let gap = match pages.page {
        Some(p) => page_break(p, page, style.markers),
        None => seq![],
    };
    reveal_strlit(" -->");
    reveal_strlit(" -->\n\n");
    assert(" -->\n\n"@ =~= " -->"@ + seq!['\n', '\n']);
    assert(here.text =~= pages.text + gap);
    let t = trimmed(line.text@);
    let level = header_level(line.size, style.base, style.tiers);
    if style.headers && level is Some {
        assert(hashes(level->0 as nat) =~= Seq::new(level->0 as nat, |i: int| '#'));
    }
    assert(pages.with(line, style).text =~= pages.text + gap + line_markdown(line, style));
}

/// Lines of code, by their font or by what they say, stand between two fences, one pair for all that
/// follow each other on a page.
pub proof fn lemma_code_stands_between_fences(lines: Seq<DocLine>, style: Style, n: int)
    requires
        style.code,
        0 < n <= lines.len(),
        forall|k: int|
            0 <= k < lines.len() ==> (#[trigger] lines[k]).spot.page == lines[0].spot.page,
        forall|k: int|
            0 <= k < lines.len() ==> trimmed((#[trigger] lines[k]).text@).len() > 0 && (
            lines[k].is_mono || looks_like_code(trimmed(lines[k].text@))) && !(style.headers
                && header_level(lines[k].size, style.base, style.tiers) is Some) && !(style.lists
                && is_item(trimmed(lines[k].text@))),
    ensures
        pages_of(lines, seq![], seq![], style, n).text == "```\n"@ + code_lines(lines, n),
        pages_of(lines, seq![], seq![], style, n).in_code,
        pages_of(lines, seq![], seq![], style, n).page == Some(lines[0].spot.page),
        document_markdown(lines, seq![], style) == "```\n"@ + code_lines(lines, lines.len() as int)
            + "```\n"@,
{
    lemma_order_of_none();
    lemma_code_so_far(lines, style, n);
    lemma_code_so_far(lines, style, lines.len() as int);
}

/// The texts of the first `n` lines, each with a line break behind it.
pub open spec fn code_lines(lines: Seq<DocLine>, n: int) -> Seq<char>
    decreases n,
{
    if n <= 0 {
        seq![]
    } else {
        code_lines(lines, n - 1) + trimmed(lines[n - 1].text@) + seq!['\n']
    }
}

proof fn lemma_code_so_far(lines: Seq<DocLine>, style: Style, n: int)
    requires
        style.code,
        0 < n <= lines.len(),
        forall|k: int|
            0 <= k < lines.len() ==> (#[trigger] lines[k]).spot.page == lines[0].spot.page,
        forall|k: int|
            0 <= k < lines.len() ==> trimmed((#[trigger] lines[k]).text@).len() > 0 && (
            lines[k].is_mono || looks_like_code(trimmed(lines[k].text@))) && !(style.headers
                && header_level(lines[k].size, style.base, style.tiers) is Some) && !(style.lists
                && is_item(trimmed(lines[k].text@))),
    ensures
        pages_of(lines, seq![], seq![], style, n).text == "```\n"@ + code_lines(lines, n),
        pages_of(lines, seq![], seq![], style, n).in_code,
        pages_of(lines, seq![], seq![], style, n).page == Some(lines[0].spot.page),
    decreases n,
{
    let line = lines[n - 1];
    assert(line.spot.page == lines[0].spot.page);
    if n == 1 {
        reveal_with_fuel(pages_of, 2);
        reveal_with_fuel(code_lines, 2);
    } else {
        lemma_code_so_far(lines, style, n - 1);
    }
    assert(pages_of(lines, seq![], seq![], style, n).text =~= "```\n"@ + code_lines(lines, n));
}

/// A line that is not code stands in no code block, though code is detected: alone on its page it is
/// written as where code is not detected.
pub proof fn lemma_plain_lines_are_not_fenced(line: DocLine, style: Style)
    requires
        !line.is_mono,
        !looks_like_code(trimmed(line.text@)),
    ensures
        document_markdown(seq![line], seq![], style) == line_markdown(line, style),
{
    lemma_order_of_none();
    reveal_with_fuel(pages_of, 2);
    let level = header_level(line.size, style.base, style.tiers);
    if style.headers && level is Some {
        assert(hashes(level->0 as nat) =~= Seq::new(level->0 as nat, |i: int| '#'));
    }
    assert(document_markdown(seq![line], seq![], style) =~= line_markdown(line, style));
}

/// The options decide what is detected.
pub proof fn lemma_options_decide(base: u32, tiers: Seq<u32>, options: MarkdownOptions)
    ensures
        style_of(base, tiers, options).headers == options.detect_headers,
        style_of(base, tiers, options).lists == options.detect_lists,
        style_of(base, tiers, options).code == options.detect_code,
        style_of(base, tiers, options).markers == options.include_page_numbers,
        style_of(base, tiers, options).base == base,
        style_of(base, tiers, options).tiers == tiers,
{
}

/// A number is written with its decimal digits.
pub proof fn lemma_decimals(n: nat, d: nat)
    requires
        d < 10,
    ensures
        n > 0 ==> decimal(n * 10 + d) == decimal(n) + seq![(48 + d) as char],
        decimal(d) == seq![(48 + d) as char],
{
    if n > 0 {
        assert((n * 10 + d) / 10 == n);
        assert((n * 10 + d) % 10 == d);
        assert(decimal(n * 10 + d) =~= decimal(n) + seq![(48 + d) as char]);
    }
}

/// A block stands before a line where it is on an earlier page, or on the same page and not below it.
pub proof fn lemma_blocks_stand_before_lines(block: Spot, line: Spot)
    ensures
        block.page < line.page ==> stands_before(block, line),
        block.page > line.page ==> !stands_before(block, line),
        block.page == line.page ==> (stands_before(block, line) <==> order_of(block.y) >= order_of(
            line.y,
        )),
{
}

/// A block between the lines of a document comes right before the first line that it stands before: of
/// a single line, before it or behind it.
pub proof fn lemma_blocks_come_before_their_lines(line: DocLine, block: Block, style: Style)
    requires
        !style.code,
        line.spot.page == block.spot.page,
    ensures
        ({
            let own = seq!['\n'] + block.markdown@ + seq!['\n'];
            let text = line_markdown(line, style);
            document_markdown(seq![line], seq![block], style) == if order_of(block.spot.y)
                >= order_of(line.spot.y) {
                own + text
            } else {
                text + own
            }
        }),
{
    let blocks = seq![block];
    let lines = seq![line];
    let order = sorted_by_keys(indices(1), block_keys(blocks));
    lemma_sorted_by_keys(indices(1), block_keys(blocks));
    lemma_sorted_members(indices(1), block_keys(blocks), 1);
    assert(order.len() == 1);
    assert(order[0] < 1);
    reveal_with_fuel(pages_of, 2);
    reveal_with_fuel(Pages::with_blocks, 3);
    reveal_with_fuel(block_slot, 3);
    let start = Pages { text: seq![], in_code: false, page: None };
    let own = seq!['\n'] + block.markdown@ + seq!['\n'];
    if order_of(block.spot.y) >= order_of(line.spot.y) {
        let first = start.with_block(block, style.markers);
        assert(first.text =~= own);
        lemma_written(first, line, style);
        assert(document_markdown(lines, blocks, style) =~= own + line_markdown(line, style));
    } else {
        lemma_written(start, line, style);
        let first = start.with(line, style);
        assert(first.text =~= line_markdown(line, style));
        assert(document_markdown(lines, blocks, style) =~= line_markdown(line, style) + own);
    }
}

// ---------------------------------------------------------------------------------------------
// Tables and images
// ---------------------------------------------------------------------------------------------

/// A table is written row by row: each cell between bars with a space on either side, a rule of as many
/// columns behind the first row, and each row on a line of its own.
pub proof fn lemma_tables_are_written_by_rows(
    cells: Seq<Seq<Seq<char>>>,
    n: int,
    row: Seq<Seq<char>>,
    cell: Seq<char>,
    cols: nat,
)
    requires
        0 <= n < cells.len(),
    ensures
        n == 0 ==> rows_markdown(cells, 1) == row_markdown(cells[0]) + seq!['\n'] + rule_markdown(
            cells[0].len(),
        ) + seq!['\n'],
        n > 0 ==> rows_markdown(cells, n + 1) == rows_markdown(cells, n) + row_markdown(cells[n])
            + seq!['\n'],
        row_markdown(row.push(cell)) == row_markdown(row) + seq![' '] + trimmed(cell) + seq![
            ' ',
            '|',
        ],
        row_markdown(Seq::<Seq<char>>::empty()) == seq!['|'],
        rule_markdown(cols + 1) == rule_markdown(cols) + seq![' ', '-', '-', '-', ' ', '|'],
        rule_markdown(0) == seq!['|'],
{
    reveal_with_fuel(rows_markdown, 2);
    assert(row.push(cell).drop_last() =~= row);
    assert(row_markdown(row.push(cell)) =~= row_markdown(row) + seq![' '] + trimmed(cell) + seq![
        ' ',
        '|',
    ]);
    reveal_strlit(" --- |");
    assert(" --- |"@ =~= seq![' ', '-', '-', '-', ' ', '|']);
    assert(rows_markdown(cells, 1) =~= row_markdown(cells[0]) + seq!['\n'] + rule_markdown(
        cells[0].len(),
    ) + seq!['\n']);
}

/// An image is written by the name in its placeholder.
pub proof fn lemma_images_are_written(name: Seq<char>)
    ensures
        image_text("[Image: "@ + name + seq![']']) == "![Image: "@ + name + "](image)\n"@,
{
    reveal_strlit("[Image: ");
    let s = "[Image: "@ + name + seq![']'];
    assert(s.subrange(0, 8) =~= "[Image: "@);
    assert(s.last() == ']');
    assert(s.subrange(8, s.len() - 1) =~= name);
}

/// Every piece of text that no table of rectangles has taken is searched for further tables, in one of
/// the groups; and no piece that one has taken is.
pub proof fn lemma_pieces_are_searched(
    n: nat,
    claimed: Seq<usize>,
    hints: Seq<Seq<bool>>,
    k: usize,
)
    requires
        k < n <= usize::MAX,
        forall|h: int| 0 <= h < hints.len() ==> (#[trigger] hints[h]).len() == n,
    ensures
        !claimed.contains(k) ==> exists|g: int|
            0 <= g < search_groups(n, claimed, hints).len() && (#[trigger] search_groups(
                n,
                claimed,
                hints,
            )[g]).contains(k),
        claimed.contains(k) ==> forall|g: int|
            0 <= g < search_groups(n, claimed, hints).len() ==> !(#[trigger] search_groups(
                n,
                claimed,
                hints,
            )[g]).contains(k),
{
    broadcast use vstd::seq_lib::group_filter_ensures;

    let all = indices(n);
    let groups = search_groups(n, claimed, hints);
    assert(all[k as int] == k);
    if claimed.contains(k) {
        let free = is_free(claimed);
        assert(groups.len() == 1);
        assert(groups[0] == all.filter(free));
        if groups[0].contains(k) {
            let i = groups[0].index_of(k);
            assert(free(all.filter(free)[i]));
        }
    } else if claimed.len() > 0 {
        assert(is_free(claimed)(k));
        assert(groups[0].contains(all[k as int]));
    } else if hints.len() > 0 {
        if exists|h: int| 0 <= h < hints.len() && (#[trigger] hints[h])[k as int] {
            let h = choose|h: int| 0 <= h < hints.len() && (#[trigger] hints[h])[k as int];
            assert(is_inside(hints[h])(k));
            assert(all.filter(is_inside(hints[h])).contains(all[k as int]));
            assert(groups[h] == all.filter(is_inside(hints[h])));
        } else {
            assert(is_outside(hints)(k));
            assert(all.filter(is_outside(hints)).contains(all[k as int]));
            assert(groups[hints.len() as int] == all.filter(is_outside(hints)));
        }
    } else {
        assert(groups[0] == all);
        assert(all.contains(k));
    }
}

} // verus!
