//! What a line of text is: a list item, code, or a heading.

use crate::spacing::{is_decimal_digit, is_digit};
use crate::text::{
    begins_with, chars_of, contains_text, has_text, starts_with, string_of, trim, trimmed,
};
use crate::text_utils::{lowercase_text, to_lowercase};
use vstd::prelude::*;
use vstd::slice::slice_subrange;

verus! {

/// Whether a character is an ASCII letter.
pub open spec fn is_ascii_letter(c: char) -> bool {
    'a' <= c <= 'z' || 'A' <= c <= 'Z'
}

/// Whether a character is a bullet that needs no space behind it.
pub open spec fn is_round_bullet(c: char) -> bool {
    c == '\u{2022}' || c == '\u{25CB}' || c == '\u{25CF}' || c == '\u{25E6}'
}

/// Whether a line starts with a bullet: a round one, or a hyphen or an asterisk with a space behind
/// it.
pub open spec fn is_bullet_line(s: Seq<char>) -> bool {
    s.len() > 0 && (is_round_bullet(s[0]) || ((s[0] == '-' || s[0] == '*') && s.len() > 1 && s[1]
        == ' '))
}

/// The end of the digits that a text has from `i` on.
pub open spec fn digits_end(s: Seq<char>, i: int) -> int
    decreases s.len() - i,
{
    if 0 <= i < s.len() && is_digit(s[i]) {
        digits_end(s, i + 1)
    } else {
        i
    }
}

/// The end of a label, a number or a single letter, that stands at `i`; `i` itself where there is
/// none.
pub open spec fn label_end(s: Seq<char>, i: int) -> int {
    if digits_end(s, i) > i {
        digits_end(s, i)
    } else if 0 <= i < s.len() && is_ascii_letter(s[i]) {
        i + 1
    } else {
        i
    }
}

/// Whether a line starts with a label: a number or a letter with a full stop or a bracket and a
/// space behind it, or in brackets.
pub open spec fn is_labelled_line(s: Seq<char>) -> bool {
    let e = label_end(s, 0);
    let f = label_end(s, 1);
    ||| 0 < e && e + 1 < s.len() && (s[e] == '.' || s[e] == ')') && s[e + 1] == ' '
    ||| s.len() > 0 && s[0] == '(' && 1 < f < s.len() && s[f] == ')'
}

/// Whether a line is a list item.
pub open spec fn is_item(s: Seq<char>) -> bool {
    is_bullet_line(s) || is_labelled_line(s)
}

proof fn lemma_digits_end(s: Seq<char>, i: int)
    requires
        0 <= i <= s.len(),
    ensures
        i <= digits_end(s, i) <= s.len(),
    decreases s.len() - i,
{
    if i < s.len() && is_digit(s[i]) {
        lemma_digits_end(s, i + 1);
    }
}

/// The end of a label that stands at `i`.
fn find_label_end(s: &[char], i: usize) -> (r: usize)
    requires
        i <= s@.len(),
    ensures
        r == label_end(s@, i as int),
        i <= r <= s@.len(),
{
    let mut j: usize = i;
    while j < s.len() && is_decimal_digit(s[j])
        invariant
            i <= j <= s@.len(),
            digits_end(s@, j as int) == digits_end(s@, i as int),
        decreases s@.len() - j,
    {
        j = j + 1;
    }
    if j > i {
        return j;
    }
    if i < s.len() && (('a' <= s[i] && s[i] <= 'z') || ('A' <= s[i] && s[i] <= 'Z')) {
        i + 1
    } else {
        i
    }
}

/// Whether a line starts with a bullet.
fn starts_with_bullet(s: &[char]) -> (r: bool)
    ensures
        r == is_bullet_line(s@),
{
    if s.len() == 0 {
        return false;
    }
    let c: char = s[0];
    c == '\u{2022}' || c == '\u{25CB}' || c == '\u{25CF}' || c == '\u{25E6}' || ((c == '-' || c
        == '*') && s.len() > 1 && s[1] == ' ')
}

/// Whether a line starts with a label.
fn starts_with_label(s: &[char]) -> (r: bool)
    ensures
        r == is_labelled_line(s@),
{
    if s.len() == 0 {
        proof {
            lemma_digits_end(s@, 0);
        }
        return false;
    }
    let e: usize = find_label_end(s, 0);
    if e > 0 && s.len() - e > 1 && (s[e] == '.' || s[e] == ')') && s[e + 1] == ' ' {
        return true;
    }
    let f: usize = find_label_end(s, 1);
    s[0] == '(' && f > 1 && f < s.len() && s[f] == ')'
}

/// Whether a line is an item of a list: it starts with a bullet, or with a number or a letter as
/// its label.
pub fn is_list_item(text: &str) -> (r: bool)
    ensures
        r == is_item(text@),
{
    let chars = chars_of(text);
    starts_with_bullet(chars.as_slice()) || starts_with_label(chars.as_slice())
}

/// A list item as Markdown: a round bullet becomes a hyphen; a hyphen or an asterisk, which are
/// bullets of Markdown, and a label stay.
pub open spec fn item_markdown(s: Seq<char>) -> Seq<char> {
    if s.len() > 0 && is_round_bullet(s[0]) {
        seq!['-', ' '] + trimmed(s.skip(1))
    } else {
        s
    }
}

/// Writes a list item as Markdown.
pub fn format_list_item(text: &str) -> (r: String)
    ensures
        r@ == item_markdown(text@),
{
    let chars = chars_of(text);
    if chars.len() > 0 && (chars[0] == '\u{2022}' || chars[0] == '\u{25CB}' || chars[0] == '\u{25CF}'
        || chars[0] == '\u{25E6}') {
        let rest = slice_subrange(chars.as_slice(), 1, chars.len());
        assert(rest@ =~= text@.skip(1));
        let body = trim(rest);
        let mut out: Vec<char> = Vec::new();
        out.push('-');
        out.push(' ');
        out.extend_from_slice(body);
        assert(out@ =~= seq!['-', ' '] + body@);
        string_of(out.as_slice())
    } else {
        text.to_string()
    }
}

/// A list item stays a list item when it is written as Markdown, and to write it again changes
/// nothing.
pub proof fn lemma_format_is_stable(s: Seq<char>)
    requires
        is_item(s),
    ensures
        is_item(item_markdown(s)),
        item_markdown(item_markdown(s)) == item_markdown(s),
{
    let md = item_markdown(s);
    if is_round_bullet(s[0]) {
        assert(md[0] == '-' && md[1] == ' ');
    }
}

/// Whether a character is typical of code.
pub open spec fn is_code_char(c: char) -> bool {
    c == '{' || c == '}' || c == '(' || c == ')' || c == '[' || c == ']' || c == ';' || c == '=' || c
        == '<' || c == '>'
}

/// How many characters of a text are typical of code.
pub open spec fn code_char_count(s: Seq<char>) -> nat
    decreases s.len(),
{
    if s.len() == 0 {
        0
    } else {
        code_char_count(s.drop_last()) + if is_code_char(s.last()) {
            1nat
        } else {
            0nat
        }
    }
}

/// Whether a line starts with a keyword or a sign of a programming language.
pub open spec fn has_keyword(s: Seq<char>) -> bool {
    ||| begins_with(s, "import "@)
    ||| begins_with(s, "export "@)
    ||| begins_with(s, "const "@)
    ||| begins_with(s, "let "@)
    ||| begins_with(s, "function "@)
    ||| begins_with(s, "class "@)
    ||| begins_with(s, "def "@)
    ||| begins_with(s, "pub fn "@)
    ||| begins_with(s, "async fn "@)
    ||| begins_with(s, "impl "@)
    ||| begins_with(s, "=> "@)
    ||| begins_with(s, "-> "@)
    ||| begins_with(s, ":: "@)
}

/// Whether a line looks like code: it starts with a keyword or a sign, or more than one character in
/// five is typical of code.
pub open spec fn looks_like_code(s: Seq<char>) -> bool {
    has_keyword(s) || 5 * code_char_count(s) > s.len()
}

/// Whether a line looks like code.
pub fn is_code_like(text: &str) -> (r: bool)
    ensures
        r == looks_like_code(text@),
{
    let chars = chars_of(text);
    let s = chars.as_slice();
    if starts_with(s, "import ") || starts_with(s, "export ") || starts_with(s, "const ")
        || starts_with(s, "let ") || starts_with(s, "function ") || starts_with(s, "class ")
        || starts_with(s, "def ") || starts_with(s, "pub fn ") || starts_with(s, "async fn ")
        || starts_with(s, "impl ") || starts_with(s, "=> ") || starts_with(s, "-> ")
        || starts_with(s, ":: ") {
        return true;
    }
    let mut count: usize = 0;
    let mut i: usize = 0;
    assert(s@.take(0) =~= seq![]);
    while i < s.len()
        invariant
            i <= s@.len(),
            count <= i,
            count == code_char_count(s@.take(i as int)),
        decreases s@.len() - i,
    {
        let c: char = s[i];
        assert(s@.take(i + 1).drop_last() =~= s@.take(i as int));
        if c == '{' || c == '}' || c == '(' || c == ')' || c == '[' || c == ']' || c == ';' || c
            == '=' || c == '<' || c == '>' {
            count = count + 1;
        }
        i = i + 1;
    }
    assert(s@.take(i as int) =~= s@);
    count as u128 * 5 > s.len() as u128
}

/// Whether a font name in lower case is that of a font whose characters are all equally wide.
pub open spec fn is_monospace_name(lower: Seq<char>) -> bool {
    ||| has_text(lower, "courier"@)
    ||| has_text(lower, "consolas"@)
    ||| has_text(lower, "monaco"@)
    ||| has_text(lower, "menlo"@)
    ||| has_text(lower, "mono"@)
    ||| has_text(lower, "fira code"@)
    ||| has_text(lower, "firacode"@)
    ||| has_text(lower, "jetbrains"@)
    ||| has_text(lower, "inconsolata"@)
    ||| has_text(lower, "fixed"@)
    ||| has_text(lower, "terminal"@)
}

/// Whether a font name in lower case is that of a font whose characters are all equally wide.
pub fn is_monospace_lower(lower: &str) -> (r: bool)
    ensures
        r == is_monospace_name(lower@),
{
    let chars = chars_of(lower);
    let s = chars.as_slice();
    contains_text(s, "courier") || contains_text(s, "consolas") || contains_text(s, "monaco")
        || contains_text(s, "menlo") || contains_text(s, "mono") || contains_text(s, "fira code")
        || contains_text(s, "firacode") || contains_text(s, "jetbrains") || contains_text(
        s,
        "inconsolata",
    ) || contains_text(s, "fixed") || contains_text(s, "terminal")
}

/// Whether the characters of a font are all equally wide, by its name. Such fonts show code.
pub fn is_monospace_font(font_name: &str) -> (r: bool)
    ensures
        r == is_monospace_name(lowercase_text(font_name@)),
{
    is_monospace_lower(to_lowercase(font_name).as_str())
}

/// The position of the first tier that a size reaches; the number of tiers where it reaches none.
/// Sizes are in hundredths of a point.
pub open spec fn tier_of(size: u32, tiers: Seq<u32>, i: int) -> int
    decreases tiers.len() - i,
{
    if i < 0 || i >= tiers.len() || size >= tiers[i] {
        i
    } else {
        tier_of(size, tiers, i + 1)
    }
}

/// The level of a heading by its size, in hundredths of a point, against that of the body text. A
/// heading is at least a fifth larger than the body text. Where the sizes of the headings are
/// known its level is the first of them that it reaches; else the ratio of the sizes decides.
pub open spec fn header_level(size: u32, base: u32, tiers: Seq<u32>) -> Option<u8> {
    if base == 0 || 5 * size < 6 * base {
        None
    } else if tiers.len() > 0 {
        let level = tier_of(size, tiers, 0) + 1;
        Some(
            if level <= 4 {
                level as u8
            } else {
                4u8
            },
        )
    } else if size >= 2 * base {
        Some(1)
    } else if 2 * size >= 3 * base {
        Some(2)
    } else if 4 * size >= 5 * base {
        Some(3)
    } else {
        Some(4)
    }
}

/// The level of a heading by its size; `None` where the text is no heading.
pub fn detect_header_level(font_size: u32, base_size: u32, heading_tiers: &Vec<u32>) -> (r: Option<
    u8,
>)
    ensures
        r == header_level(font_size, base_size, heading_tiers@),
{
    let size: u64 = font_size as u64;
    let base: u64 = base_size as u64;
    if base == 0 || 5 * size < 6 * base {
        return None;
    }
    if heading_tiers.len() > 0 {
        let mut i: usize = 0;
        while i < heading_tiers.len() && size < heading_tiers[i] as u64
            invariant
                i <= heading_tiers@.len(),
                size == font_size,
                tier_of(font_size, heading_tiers@, i as int) == tier_of(
                    font_size,
                    heading_tiers@,
                    0,
                ),
            decreases heading_tiers@.len() - i,
        {
            i = i + 1;
        }
        return Some(
            if i <= 3 {
                i as u8 + 1
            } else {
                4
            },
        );
    }
    if size >= 2 * base {
        Some(1)
    } else if 2 * size >= 3 * base {
        Some(2)
    } else if 4 * size >= 5 * base {
        Some(3)
    } else {
        Some(4)
    }
}

/// A heading has a level from 1 to 4, and body text has none.
pub proof fn lemma_levels(size: u32, base: u32, tiers: Seq<u32>)
    ensures
        header_level(size, base, tiers) matches Some(level) ==> 1 <= level <= 4,
        size <= base ==> header_level(size, base, tiers) is None,
{
    if tiers.len() > 0 {
        lemma_tier_of(size, tiers, 0);
    }
}

proof fn lemma_tier_of(size: u32, tiers: Seq<u32>, i: int)
    requires
        0 <= i <= tiers.len(),
    ensures
        i <= tier_of(size, tiers, i) <= tiers.len(),
    decreases tiers.len() - i,
{
    if i < tiers.len() && size < tiers[i] {
        lemma_tier_of(size, tiers, i + 1);
    }
}

/// A larger text never has a lower rank of heading.
pub proof fn lemma_larger_is_higher(a: u32, b: u32, base: u32)
    requires
        a <= b,
        header_level(a, base, seq![]) is Some,
    ensures
        header_level(b, base, seq![]) is Some,
        header_level(b, base, seq![])->0 <= header_level(a, base, seq![])->0,
{
}

} // verus!
