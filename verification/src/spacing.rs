//! Spaces between the pieces of a line.
//!
//! Whether two pieces of text belong together depends on the gap between them and on what stands
//! at its sides. The gap is measured elsewhere; [`join_rule`] says how wide it may be.

use crate::text::{
    chars_of, is_space, is_whitespace, string_of, trim, trim_end, trim_start, trimmed, trimmed_end,
    trimmed_start,
};
use crate::text_utils::{
    is_cid_font, is_cid_name, is_cjk, is_cjk_char, is_letter, is_letter_or_number, is_lower,
    is_upper,
};
use vstd::prelude::*;

verus! {

/// How two adjacent pieces of text are joined, given the gap between them.
#[derive(Debug, Clone, Copy, PartialEq, Eq, Structural)]
pub enum JoinRule {
    /// There is a space between them.
    Apart,
    /// There is no space between them.
    Together,
    /// The width of the first piece is known. There is no space between them where the gap is less
    /// than so many hundredths of the font size.
    Within(u32),
    /// The width of the first piece is known. The pieces are words of a composite font: where the
    /// gap is at least 0 and less than a hundredth of the font size there is a space between them;
    /// otherwise the first number applies as in [`JoinRule::Within`].
    WithinUnlessTouching(u32),
    /// The width of the first piece is not known. There is no space between them where the gap is
    /// less than so many tenths of the usual width of a character.
    WithinCharacters(u32),
}

/// Whether a character may not have a space in front of it.
pub open spec fn clings(c: char) -> bool {
    c == '.' || c == ',' || c == ';' || c == '!' || c == '?' || c == ')' || c == ']' || c == '}' || c
        == '\''
}

/// Whether a character is a decimal digit.
pub open spec fn is_digit(c: char) -> bool {
    '0' <= c <= '9'
}

/// The last character of a text that is not white space.
pub open spec fn last_char(s: Seq<char>) -> Option<char> {
    if trimmed_end(s).len() > 0 {
        Some(trimmed_end(s).last())
    } else {
        None
    }
}

/// The first character of a text that is not white space.
pub open spec fn first_char(s: Seq<char>) -> Option<char> {
    if trimmed_start(s).len() > 0 {
        Some(trimmed_start(s).first())
    } else {
        None
    }
}

/// How many words a text has.
pub open spec fn word_count(s: Seq<char>) -> nat
    decreases s.len(),
{
    if s.len() == 0 {
        0
    } else {
        word_count(s.drop_last()) + if !is_space(s.last()) && (s.len() == 1 || is_space(
            s[s.len() - 2],
        )) {
            1nat
        } else {
            0nat
        }
    }
}

/// Whether two characters at the sides of a gap belong to one number.
pub open spec fn continues_number(p: char, c: char) -> bool {
    ||| (is_digit(p) || p == ',' || p == '.') && (is_digit(c) || c == '%' || c == '.')
    ||| (p == '+' || p == '-') && is_digit(c)
}

/// Whether two pieces of one character each belong to one number.
pub open spec fn continues_digits(p: char, c: char) -> bool {
    &&& is_digit(p) || p == ',' || p == '.' || p == '%' || p == '+' || p == '-'
    &&& is_digit(c) || c == ',' || c == '.' || c == '%'
}

/// How wide the gap may be where the width of the first piece is known, in hundredths of the font
/// size: more within a number, and where only one of the pieces is a single character; less where
/// both are.
pub open spec fn known_width_limit(prev: Seq<char>, curr: Seq<char>) -> u32 {
    let single_prev = trimmed(prev).len() == 1;
    let single_curr = trimmed(curr).len() == 1;
    match (last_char(prev), first_char(curr)) {
        (Some(p), Some(c)) => if continues_number(p, c) {
            30
        } else if single_prev != single_curr {
            20
        } else if single_prev {
            if continues_digits(p, c) {
                25
            } else {
                10
            }
        } else if is_lower(p) && is_lower(c) {
            18
        } else {
            15
        },
        _ => if single_prev != single_curr {
            20
        } else {
            15
        },
    }
}

/// The rule where the width of the first piece is known.
pub open spec fn known_width_rule(prev: Seq<char>, curr: Seq<char>, font: Seq<char>) -> JoinRule {
    let is_cjk_side = (last_char(prev) matches Some(p) && is_cjk(p)) || (first_char(curr) matches Some(
        c,
    ) && is_cjk(c));
    if !is_cjk_side && is_cid_name(font) && word_count(prev) < 3 {
        JoinRule::WithinUnlessTouching(known_width_limit(prev, curr))
    } else {
        JoinRule::Within(known_width_limit(prev, curr))
    }
}

/// The rule where the width of the first piece is not known: letters of the same case belong
/// together, a small letter and a capital do not.
pub open spec fn unknown_width_rule(prev: Seq<char>, curr: Seq<char>) -> JoinRule {
    let is_cjk_side = (last_char(prev) matches Some(p) && is_cjk(p)) || (first_char(curr) matches Some(
        c,
    ) && is_cjk(c));
    if is_cjk_side {
        JoinRule::WithinCharacters(8)
    } else {
        match (last_char(prev), first_char(curr)) {
            (Some(p), Some(c)) => if is_letter(p) && is_letter(c) {
                if (is_upper(p) && is_upper(c)) || (is_lower(p) && is_lower(c)) {
                    JoinRule::WithinCharacters(8)
                } else if is_lower(p) && is_upper(c) {
                    JoinRule::Apart
                } else {
                    JoinRule::WithinCharacters(3)
                }
            } else {
                JoinRule::WithinCharacters(5)
            },
            _ => JoinRule::WithinCharacters(5),
        }
    }
}

/// How two adjacent pieces of text are joined. Spaces at the sides of the gap are respected;
/// punctuation clings to what stands before it; a colon is followed by a space where a letter or a
/// number follows.
pub open spec fn join_of(
    prev: Seq<char>,
    curr: Seq<char>,
    font: Seq<char>,
    width_known: bool,
) -> JoinRule {
    if (prev.len() > 0 && prev.last() == ' ') || (curr.len() > 0 && curr.first() == ' ') {
        JoinRule::Apart
    } else if first_char(curr) matches Some(c) && clings(c) {
        JoinRule::Together
    } else if last_char(prev) == Some(':') && (first_char(curr) matches Some(c)
        && is_letter_or_number(c)) {
        JoinRule::Apart
    } else if width_known {
        known_width_rule(prev, curr, font)
    } else {
        unknown_width_rule(prev, curr)
    }
}

/// The last character of a text that is not white space.
fn get_last_char(s: &[char]) -> (r: Option<char>)
    ensures
        r == last_char(s@),
{
    let t = trim_end(s);
    if t.len() > 0 {
        Some(t[t.len() - 1])
    } else {
        None
    }
}

/// The first character of a text that is not white space.
fn get_first_char(s: &[char]) -> (r: Option<char>)
    ensures
        r == first_char(s@),
{
    let t = trim_start(s);
    if t.len() > 0 {
        Some(t[0])
    } else {
        None
    }
}

/// How many words a text has.
fn count_words(s: &[char]) -> (r: usize)
    ensures
        r == word_count(s@),
{
    let mut count: usize = 0;
    let mut i: usize = 0;
    assert(s@.take(0) =~= seq![]);
    while i < s.len()
        invariant
            i <= s@.len(),
            count <= i,
            count == word_count(s@.take(i as int)),
        decreases s@.len() - i,
    {
        assert(s@.take(i + 1).drop_last() =~= s@.take(i as int));
        if !is_whitespace(s[i]) && (i == 0 || is_whitespace(s[i - 1])) {
            count = count + 1;
        }
        i = i + 1;
    }
    assert(s@.take(i as int) =~= s@);
    count
}

/// Whether a character is a decimal digit.
pub fn is_decimal_digit(c: char) -> (r: bool)
    ensures
        r == is_digit(c),
{
    '0' <= c && c <= '9'
}

/// How wide the gap may be where the width of the first piece is known.
fn get_known_width_limit(prev: &[char], curr: &[char]) -> (r: u32)
    ensures
        r == known_width_limit(prev@, curr@),
{
    let single_prev: bool = trim(prev).len() == 1;
    let single_curr: bool = trim(curr).len() == 1;
    match (get_last_char(prev), get_first_char(curr)) {
        (Some(p), Some(c)) => {
            if ((is_decimal_digit(p) || p == ',' || p == '.') && (is_decimal_digit(c) || c == '%'
                || c == '.')) || ((p == '+' || p == '-') && is_decimal_digit(c)) {
                30
            } else if single_prev != single_curr {
                20
            } else if single_prev {
                if (is_decimal_digit(p) || p == ',' || p == '.' || p == '%' || p == '+' || p == '-')
                    && (is_decimal_digit(c) || c == ',' || c == '.' || c == '%') {
                    25
                } else {
                    10
                }
            } else if p.is_lowercase() && c.is_lowercase() {
                18
            } else {
                15
            }
        },
        _ => {
            if single_prev != single_curr {
                20
            } else {
                15
            }
        },
    }
}

/// Whether one of the characters at the sides of a gap is Chinese, Japanese or Korean.
fn has_cjk_side(p: Option<char>, c: Option<char>) -> (r: bool)
    ensures
        r == ((p matches Some(x) && is_cjk(x)) || (c matches Some(y) && is_cjk(y))),
{
    let left: bool = match p {
        Some(x) => is_cjk_char(x),
        None => false,
    };
    let right: bool = match c {
        Some(y) => is_cjk_char(y),
        None => false,
    };
    left || right
}

/// The rule where the width of the first piece is known.
fn get_known_width_rule(prev: &[char], curr: &[char], font: &str) -> (r: JoinRule)
    ensures
        r == known_width_rule(prev@, curr@, font@),
{
    let limit: u32 = get_known_width_limit(prev, curr);
    if !has_cjk_side(get_last_char(prev), get_first_char(curr)) && is_cid_font(font) && count_words(
        prev,
    ) < 3 {
        JoinRule::WithinUnlessTouching(limit)
    } else {
        JoinRule::Within(limit)
    }
}

/// The rule where the width of the first piece is not known.
fn get_unknown_width_rule(prev: &[char], curr: &[char]) -> (r: JoinRule)
    ensures
        r == unknown_width_rule(prev@, curr@),
{
    let last = get_last_char(prev);
    let first = get_first_char(curr);
    if has_cjk_side(last, first) {
        return JoinRule::WithinCharacters(8);
    }
    match (last, first) {
        (Some(p), Some(c)) => {
            if p.is_alphabetic() && c.is_alphabetic() {
                if (p.is_uppercase() && c.is_uppercase()) || (p.is_lowercase()
                    && c.is_lowercase()) {
                    JoinRule::WithinCharacters(8)
                } else if p.is_lowercase() && c.is_uppercase() {
                    JoinRule::Apart
                } else {
                    JoinRule::WithinCharacters(3)
                }
            } else {
                JoinRule::WithinCharacters(5)
            }
        },
        _ => JoinRule::WithinCharacters(5),
    }
}

/// How two adjacent pieces of text are joined. `font` is the name of the first one's font.
pub fn join_rule(prev: &str, curr: &str, font: &str, width_known: bool) -> (r: JoinRule)
    ensures
        r == join_of(prev@, curr@, font@, width_known),
{
    let prev_chars = chars_of(prev);
    let curr_chars = chars_of(curr);
    let p = prev_chars.as_slice();
    let c = curr_chars.as_slice();
    if (p.len() > 0 && p[p.len() - 1] == ' ') || (c.len() > 0 && c[0] == ' ') {
        return JoinRule::Apart;
    }
    match get_first_char(c) {
        Some(x) => {
            if x == '.' || x == ',' || x == ';' || x == '!' || x == '?' || x == ')' || x == ']' || x
                == '}' || x == '\'' {
                return JoinRule::Together;
            }
            match get_last_char(p) {
                Some(y) => {
                    if y == ':' && x.is_alphanumeric() {
                        return JoinRule::Apart;
                    }
                },
                None => {},
            }
        },
        None => {},
    }
    if width_known {
        get_known_width_rule(p, c, font)
    } else {
        get_unknown_width_rule(p, c)
    }
}

// ---------------------------------------------------------------------------------------------
// The text of a line
// ---------------------------------------------------------------------------------------------

/// A piece of a line. `is_tight` says that it belongs to the piece before it: it is set right
/// behind it, or one of the two is a subscript or superscript of the other.
#[derive(Debug, Clone)]
pub struct LinePiece {
    pub text: String,
    pub is_bold: bool,
    pub is_italic: bool,
    pub is_tight: bool,
}

/// Whether a text ends with a character.
pub open spec fn ends_with_char(s: Seq<char>, c: char) -> bool {
    s.len() > 0 && s.last() == c
}

/// Whether a text starts with a character.
pub open spec fn starts_with_char(s: Seq<char>, c: char) -> bool {
    s.len() > 0 && s.first() == c
}

/// Whether a space goes between the line so far and the next piece: not around hyphens, not where
/// the piece is tight, and not where there is a space already.
pub open spec fn needs_space(line: Seq<char>, text: Seq<char>, is_tight: bool) -> bool {
    !(ends_with_char(line, '-') || trimmed(text) == seq!['-'] || starts_with_char(text, '-')
        || is_tight || ends_with_char(line, ' ') || starts_with_char(text, ' '))
}

/// The plain text of the first `n` pieces of a line.
pub open spec fn plain_text(pieces: Seq<LinePiece>, n: int) -> Seq<char>
    decreases n,
{
    if n <= 0 {
        seq![]
    } else {
        let before = plain_text(pieces, n - 1);
        let piece = pieces[n - 1];
        if n > 1 && needs_space(before, piece.text@, piece.is_tight) {
            before.push(' ') + piece.text@
        } else {
            before + piece.text@
        }
    }
}

/// A text with Markdown marks for bold and italic, and which of them are open.
pub struct Marked {
    pub text: Seq<char>,
    pub bold: bool,
    pub italic: bool,
}

impl Marked {
    /// The marks closed that the next piece does not carry.
    pub open spec fn closed(self, bold: bool, italic: bool) -> Marked {
        let after_italic = if self.italic && !italic {
            self.text.push('*')
        } else {
            self.text
        };
        Marked {
            text: if self.bold && !bold {
                after_italic.push('*').push('*')
            } else {
                after_italic
            },
            bold: self.bold && bold,
            italic: self.italic && italic,
        }
    }

    /// The marks opened that the next piece carries.
    pub open spec fn opened(self, bold: bool, italic: bool) -> Marked {
        let after_bold = if bold && !self.bold {
            self.text.push('*').push('*')
        } else {
            self.text
        };
        Marked {
            text: if italic && !self.italic {
                after_bold.push('*')
            } else {
                after_bold
            },
            bold: self.bold || bold,
            italic: self.italic || italic,
        }
    }
}

/// A line with marks and one more piece. Blank pieces are passed over. A mark that is no longer
/// carried is closed before the space, a new one is opened behind it.
pub open spec fn with_piece(
    line: Marked,
    piece: LinePiece,
    is_first: bool,
    format_bold: bool,
    format_italic: bool,
) -> Marked {
    let text = trimmed(piece.text@);
    if text.len() == 0 {
        line
    } else {
        let bold = format_bold && piece.is_bold;
        let italic = format_italic && piece.is_italic;
        let space = !is_first && line.text.len() > 0 && needs_space(
            line.text,
            piece.text@,
            piece.is_tight,
        );
        let closed = line.closed(bold, italic);
        let spaced = if space || (starts_with_char(piece.text@, ' ') && closed.text.len() > 0
            && !ends_with_char(closed.text, ' ')) {
            Marked { text: closed.text.push(' '), ..closed }
        } else {
            closed
        };
        let opened = spaced.opened(bold, italic);
        Marked { text: opened.text + text, ..opened }
    }
}

/// The first `n` pieces of a line with marks.
pub open spec fn marked_text(
    pieces: Seq<LinePiece>,
    n: int,
    format_bold: bool,
    format_italic: bool,
) -> Marked
    decreases n,
{
    if n <= 0 {
        Marked { text: seq![], bold: false, italic: false }
    } else {
        with_piece(
            marked_text(pieces, n - 1, format_bold, format_italic),
            pieces[n - 1],
            n == 1,
            format_bold,
            format_italic,
        )
    }
}

/// The text of a line, with Markdown marks where they are asked for.
pub open spec fn line_text(pieces: Seq<LinePiece>, format_bold: bool, format_italic: bool) -> Seq<
    char,
> {
    if !format_bold && !format_italic {
        plain_text(pieces, pieces.len() as int)
    } else {
        marked_text(pieces, pieces.len() as int, format_bold, format_italic).closed(
            false,
            false,
        ).text
    }
}

/// Whether a space goes between the line so far and the next piece.
pub fn needs_space_between(line: &[char], text: &[char], is_tight: bool) -> (r: bool)
    ensures
        r == needs_space(line@, text@, is_tight),
{
    let t = trim(text);
    let is_hyphen: bool = t.len() == 1 && t[0] == '-';
    assert(is_hyphen <==> t@ == seq!['-']) by {
        if is_hyphen {
            assert(t@ =~= seq!['-']);
        }
    }
    let after_hyphen: bool = line.len() > 0 && line[line.len() - 1] == '-';
    let after_space: bool = line.len() > 0 && line[line.len() - 1] == ' ';
    let at_hyphen: bool = text.len() > 0 && text[0] == '-';
    let at_space: bool = text.len() > 0 && text[0] == ' ';
    !(after_hyphen || is_hyphen || at_hyphen || is_tight || after_space || at_space)
}

/// The plain text of a line.
fn text_plain(pieces: &Vec<LinePiece>) -> (r: Vec<char>)
    ensures
        r@ == plain_text(pieces@, pieces@.len() as int),
{
    let mut out: Vec<char> = Vec::new();
    let mut i: usize = 0;
    assert(out@ =~= seq![]);
    while i < pieces.len()
        invariant
            i <= pieces@.len(),
            out@ == plain_text(pieces@, i as int),
        decreases pieces@.len() - i,
    {
        let text = chars_of(pieces[i].text.as_str());
        if i > 0 && needs_space_between(out.as_slice(), text.as_slice(), pieces[i].is_tight) {
            out.push(' ');
        }
        let ghost before = out@;
        out.extend_from_slice(text.as_slice());
        assert(out@ =~= before + text@);
        i = i + 1;
    }
    out
}

/// A line of text: its pieces from left to right, its height on the page as a real number given by
/// its bits, and its page.
#[derive(Debug, Clone)]
pub struct TextLine {
    pub items: Vec<LinePiece>,
    pub y: u32,
    pub page: u32,
}

impl TextLine {
    /// The text of the line, with Markdown marks for bold and italic where they are asked for.
    pub fn text_with_formatting(&self, format_bold: bool, format_italic: bool) -> (r: String)
        ensures
            r@ == line_text(self.items@, format_bold, format_italic),
    {
        let pieces = &self.items;
        if !format_bold && !format_italic {
            return string_of(text_plain(pieces).as_slice());
        }
        let mut out: Vec<char> = Vec::new();
        let mut bold_open: bool = false;
        let mut italic_open: bool = false;
        let mut i: usize = 0;
        assert(out@ =~= seq![]);
        while i < pieces.len()
            invariant
                i <= pieces@.len(),
                (Marked { text: out@, bold: bold_open, italic: italic_open }) == marked_text(
                    pieces@,
                    i as int,
                    format_bold,
                    format_italic,
                ),
            decreases pieces@.len() - i,
        {
            let text = chars_of(pieces[i].text.as_str());
            let body = trim(text.as_slice());
            i = i + 1;
            if body.len() == 0 {
                continue;
            }
            let bold: bool = format_bold && pieces[i - 1].is_bold;
            let italic: bool = format_italic && pieces[i - 1].is_italic;
            let space: bool = i > 1 && out.len() > 0 && needs_space_between(
                out.as_slice(),
                text.as_slice(),
                pieces[i - 1].is_tight,
            );
            if italic_open && !italic {
                out.push('*');
                italic_open = false;
            }
            if bold_open && !bold {
                out.push('*');
                out.push('*');
                bold_open = false;
            }
            if space || (text[0] == ' ' && out.len() > 0 && out[out.len() - 1] != ' ') {
                out.push(' ');
            }
            if bold && !bold_open {
                out.push('*');
                out.push('*');
                bold_open = true;
            }
            if italic && !italic_open {
                out.push('*');
                italic_open = true;
            }
            let ghost before = out@;
            out.extend_from_slice(body);
            assert(out@ =~= before + body@);
        }
        if italic_open {
            out.push('*');
        }
        if bold_open {
            out.push('*');
            out.push('*');
        }
        string_of(out.as_slice())
    }

    /// The text of the line without marks.
    pub fn text(&self) -> (r: String)
        ensures
            r@ == line_text(self.items@, false, false),
    {
        self.text_with_formatting(false, false)
    }
}

} // verus!
