//! ToUnicode CMaps: the tables by which a font's character codes turn into Unicode text.
//!
//! A CMap is read in two steps. First its text is cut into sections and each section into
//! bracketed hexadecimal tokens; then the tokens are entered in order. The specification
//! functions follow the same two steps.

use crate::text::{
    char_from, chars_of, contains_char, find_char, find_text, found_from, hex_digit,
    hex_digit_value, hex_number, is_pair, is_scalar_value, lemma_char_from, lemma_found_from,
    lemma_space_end, lemma_utf8_size_at_least, lossy_text, pair_char, parse_hex, scalar_text,
    skip_spaces, space_end, string_of, text_from_utf8_lossy, trim, trimmed, utf8_size, utf8_width,
    utf8_width_of,
};
use std::collections::HashMap;
use vstd::prelude::*;
use vstd::slice::slice_subrange;

verus! {

broadcast use vstd::std_specs::hash::group_hash_axioms;

// ---------------------------------------------------------------------------------------------
// Hexadecimal tokens
// ---------------------------------------------------------------------------------------------

/// A number in base 16 with white space around it that fits in 16 bits.
pub fn parse_hex_u16(hex: &[char]) -> (r: Option<u16>)
    ensures
        r is Some <==> hex_number(trimmed(hex@), 0xFFFF) is Some,
        r matches Some(v) ==> hex_number(trimmed(hex@), 0xFFFF) == Some(v as nat),
{
    match parse_hex(trim(hex), 0xFFFF) {
        Some(v) => Some(v as u16),
        None => None,
    }
}

/// A number in base 16 with white space around it that fits in 32 bits.
pub fn parse_hex_u32(hex: &[char]) -> (r: Option<u32>)
    ensures
        r is Some <==> hex_number(trimmed(hex@), 0xFFFF_FFFF) is Some,
        r matches Some(v) ==> hex_number(trimmed(hex@), 0xFFFF_FFFF) == Some(v as nat),
{
    parse_hex(trim(hex), 0xFFFF_FFFF)
}

/// How many characters from `i` on take exactly four bytes in UTF-8, of which `room` are still to
/// be filled; `None` where the text ends before or a character crosses the border.
pub open spec fn group_end(s: Seq<char>, i: int, room: int) -> Option<int>
    decreases s.len() - i,
{
    if room == 0 {
        Some(i)
    } else if room < 0 || i < 0 || i >= s.len() {
        None
    } else {
        group_end(s, i + 1, room - utf8_width(s[i]))
    }
}

/// The number that a group of digits stands for.
pub open spec fn group_number(s: Seq<char>, i: int) -> Option<(nat, int)> {
    match group_end(s, i, 4) {
        Some(j) => if 0 <= i < j <= s.len() {
            match hex_number(s.subrange(i, j), 0xFFFF_FFFF) {
                Some(v) => Some((v, j)),
                None => None,
            }
        } else {
            None
        },
        None => None,
    }
}

/// The text that groups of four bytes stand for from `i` on. Two groups that are a surrogate pair
/// stand for one character. Groups that are no number, or no character, are passed over, and so is
/// a rest of fewer than four bytes.
pub open spec fn groups_text(s: Seq<char>, i: int) -> Seq<char>
    decreases s.len() - i,
{
    match group_end(s, i, 4) {
        Some(j) => if 0 <= i < j <= s.len() {
            match (group_number(s, i), group_number(s, j)) {
                (Some((high, _)), Some((low, k))) => if is_pair(high as int, low as int) && j < k
                    <= s.len() {
                    seq![pair_char(high as int, low as int)] + groups_text(s, k)
                } else {
                    scalar_text(high as int) + groups_text(s, j)
                },
                (Some((v, _)), None) => scalar_text(v as int) + groups_text(s, j),
                (None, _) => groups_text(s, j),
            }
        } else {
            seq![]
        },
        None => seq![],
    }
}

/// The text that a destination token stands for, if it stands for any.
pub open spec fn unicode_text(hex: Seq<char>) -> Option<Seq<char>> {
    let text = groups_text(trimmed(hex), 0);
    if text.len() > 0 {
        Some(text)
    } else {
        None
    }
}

/// The end of the group of four bytes that starts at `i`.
fn find_group_end(s: &[char], i: usize) -> (r: Option<usize>)
    requires
        i <= s@.len(),
    ensures
        r is Some <==> group_end(s@, i as int, 4) is Some,
        r matches Some(j) ==> group_end(s@, i as int, 4) == Some(j as int) && i < j <= s@.len(),
{
    let mut j: usize = i;
    let mut room: i32 = 4;
    while room > 0 && j < s.len()
        invariant
            i <= j <= s@.len(),
            -4 <= room <= 4,
            room == 4 ==> j == i,
            room < 4 ==> j > i,
            group_end(s@, j as int, room as int) == group_end(s@, i as int, 4),
        decreases s@.len() - j,
    {
        room = room - utf8_width_of(s[j]) as i32;
        j = j + 1;
    }
    if room == 0 {
        Some(j)
    } else {
        None
    }
}

/// The number that the group at `i` stands for, and the end of the group.
fn read_group(s: &[char], i: usize) -> (r: Option<(u32, usize)>)
    requires
        i <= s@.len(),
    ensures
        match r {
            Some(g) => group_number(s@, i as int) == Some((g.0 as nat, g.1 as int)) && i < g.1
                <= s@.len(),
            None => group_number(s@, i as int) is None,
        },
{
    match find_group_end(s, i) {
        Some(j) => match parse_hex(slice_subrange(s, i, j), 0xFFFF_FFFF) {
            Some(v) => Some((v, j)),
            None => None,
        },
        None => None,
    }
}

/// Converts a row of four-digit groups to the text that they stand for. Two groups that are a
/// surrogate pair stand for one character.
pub fn hex_to_unicode_string(hex: &[char]) -> (r: Option<String>)
    ensures
        r is Some <==> unicode_text(hex@) is Some,
        r matches Some(s) ==> unicode_text(hex@) == Some(s@),
{
    let s = trim(hex);
    let mut out: String = String::new();
    let mut count: usize = 0;
    let mut i: usize = 0;
    loop
        invariant
            i <= s@.len(),
            s@ == trimmed(hex@),
            count == out@.len(),
            count <= i,
            out@ + groups_text(s@, i as int) == groups_text(s@, 0),
        ensures
            out@ == groups_text(s@, 0),
        decreases s@.len() - i,
    {
        let j: usize = match find_group_end(s, i) {
            None => {
                assert(out@ + groups_text(s@, i as int) =~= out@);
                break;
            },
            Some(j) => j,
        };
        let ghost before = out@;
        let mut next: usize = j;
        match read_group(s, i) {
            Some((high, _)) => {
                let mut code: u32 = high;
                match read_group(s, j) {
                    Some((low, k)) => {
                        if 0xD800 <= high && high <= 0xDBFF && 0xDC00 <= low && low <= 0xDFFF {
                            code = 0x10000 + (high - 0xD800) * 0x400 + (low - 0xDC00);
                            next = k;
                        }
                    },
                    None => {},
                }
                match char::from_u32(code) {
                    Some(c) => {
                        out.push(c);
                        count = count + 1;
                        assert(out@ =~= before + seq![c]);
                    },
                    None => {},
                }
                assert(out@ =~= before + scalar_text(code as int));
                assert(scalar_text(code as int) + groups_text(s@, next as int) == groups_text(
                    s@,
                    i as int,
                ));
            },
            None => {},
        }
        assert(out@ + groups_text(s@, next as int) =~= before + groups_text(s@, i as int));
        i = next;
    }
    if count == 0 {
        None
    } else {
        Some(out)
    }
}

// ---------------------------------------------------------------------------------------------
// Sections
// ---------------------------------------------------------------------------------------------

/// The position behind `i`, or the end.
pub open spec fn past(s: Seq<char>, i: int) -> int {
    if i < s.len() {
        i + 1
    } else {
        i
    }
}

/// The token in angle brackets that comes next from `i` on, white space passed over, and the
/// position behind it. The closing bracket may be missing at the end of the text.
pub open spec fn token(s: Seq<char>, i: int) -> Option<(Seq<char>, int)> {
    let a = space_end(s, i);
    if 0 <= a < s.len() && s[a] == '<' {
        let e = char_from(s, '>', a + 1);
        Some((s.subrange(a + 1, e), past(s, e)))
    } else {
        None
    }
}

/// Each token takes the position further.
pub proof fn lemma_token_advances(s: Seq<char>, i: int)
    requires
        0 <= i <= s.len(),
    ensures
        token(s, i) matches Some((t, j)) ==> i < j <= s.len(),
        i <= space_end(s, i) <= s.len(),
{
    lemma_space_end(s, i);
    let a = space_end(s, i);
    if a < s.len() {
        lemma_char_from(s, '>', a + 1);
    }
}

/// Reads the token that comes next from `i` on.
fn read_token<'a>(s: &'a [char], i: usize) -> (r: Option<(&'a [char], usize)>)
    requires
        i <= s@.len(),
    ensures
        r is Some <==> token(s@, i as int) is Some,
        r matches Some((t, j)) ==> token(s@, i as int) == Some((t@, j as int)) && i < j <= s@.len(),
{
    let a: usize = skip_spaces(s, i);
    if a < s.len() && s[a] == '<' {
        let e: usize = find_char(s, '>', a + 1);
        let next: usize = if e < s.len() {
            e + 1
        } else {
            e
        };
        Some((slice_subrange(s, a + 1, e), next))
    } else {
        None
    }
}

/// What has been read of a CMap: the codes mapped to a text, the ranges in the order in which
/// they came, and, for each source code that was written, whether it is at most two bytes long.
#[verifier::ext_equal]
pub struct CMapModel {
    pub chars: Map<u16, Seq<char>>,
    pub ranges: Seq<(u16, u16, u32)>,
    pub narrow: Seq<bool>,
}

impl CMapModel {
    /// Nothing read yet.
    pub open spec fn empty() -> Self {
        CMapModel { chars: Map::empty(), ranges: Seq::empty(), narrow: Seq::empty() }
    }

    /// A source code noted, unless it is blank.
    pub open spec fn noted(self, source: Seq<char>) -> Self {
        let code = trimmed(source);
        if code.len() > 0 {
            CMapModel { narrow: self.narrow.push(utf8_size(code) <= 2), ..self }
        } else {
            self
        }
    }

    /// A code mapped to a text, where both can be read.
    pub open spec fn mapped(self, source: Seq<char>, target: Seq<char>) -> Self {
        match (hex_number(trimmed(source), 0xFFFF), unicode_text(target)) {
            (Some(code), Some(text)) => CMapModel {
                chars: self.chars.insert(code as u16, text),
                ..self
            },
            _ => self,
        }
    }

    /// A range of codes mapped to consecutive characters, where all three numbers can be read.
    pub open spec fn ranged(self, first: Seq<char>, last: Seq<char>, base: Seq<char>) -> Self {
        match (
            hex_number(trimmed(first), 0xFFFF),
            hex_number(trimmed(last), 0xFFFF),
            hex_number(trimmed(base), 0xFFFF_FFFF),
        ) {
            (Some(a), Some(b), Some(c)) => CMapModel {
                ranges: self.ranges.push((a as u16, b as u16, c as u32)),
                ..self
            },
            _ => self,
        }
    }
}

/// What is known after the rest, from `i` on, of a section of `<code> <text>` pairs.
pub open spec fn after_bfchar(s: Seq<char>, i: int, m: CMapModel) -> CMapModel
    decreases s.len() - i,
    when 0 <= i <= s.len()
{
    proof {
        lemma_token_advances(s, i);
    }
    match token(s, i) {
        None => m,
        Some((source, j)) => {
            proof {
                lemma_token_advances(s, j);
            }
            match token(s, j) {
                None => m.noted(source),
                Some((target, k)) => after_bfchar(s, k, m.noted(source).mapped(source, target)),
            }
        },
    }
}

/// A list of texts for consecutive codes from `code` on: the mapping with those texts entered,
/// and the position behind the list. The text for `last` is the last one that counts.
pub open spec fn after_list(
    s: Seq<char>,
    i: int,
    code: int,
    last: int,
    chars: Map<u16, Seq<char>>,
) -> (Map<u16, Seq<char>>, int)
    decreases s.len() - i,
    when 0 <= i <= s.len()
{
    proof {
        lemma_token_advances(s, i);
    }
    match token(s, i) {
        Some((target, j)) => {
            let entered = match unicode_text(target) {
                Some(text) => chars.insert(code as u16, text),
                None => chars,
            };
            if code >= last {
                (entered, past(s, char_from(s, ']', j)))
            } else {
                after_list(s, j, code + 1, last, entered)
            }
        },
        None => {
            let p = space_end(s, i);
            (
                chars,
                if p < s.len() && s[p] == ']' {
                    p + 1
                } else {
                    p
                },
            )
        },
    }
}

/// The position behind a list is not before its start.
pub proof fn lemma_list_advances(
    s: Seq<char>,
    i: int,
    code: int,
    last: int,
    chars: Map<u16, Seq<char>>,
)
    requires
        0 <= i <= s.len(),
    ensures
        i <= after_list(s, i, code, last, chars).1 <= s.len(),
    decreases s.len() - i,
{
    lemma_token_advances(s, i);
    match token(s, i) {
        Some((target, j)) => {
            lemma_char_from(s, ']', j);
            let entered = match unicode_text(target) {
                Some(text) => chars.insert(code as u16, text),
                None => chars,
            };
            if code < last {
                lemma_list_advances(s, j, code + 1, last, entered);
            }
        },
        None => {},
    }
}

/// What is known after the rest, from `i` on, of a section of ranges, each of which is written
/// `<first> <last> <base>` or `<first> <last> [<text> ...]`.
pub open spec fn after_bfrange(s: Seq<char>, i: int, m: CMapModel) -> CMapModel
    decreases s.len() - i,
    when 0 <= i <= s.len()
{
    proof {
        lemma_token_advances(s, i);
    }
    match token(s, i) {
        None => m,
        Some((first, j)) => {
            let m = m.noted(first);
            proof {
                lemma_token_advances(s, j);
            }
            match token(s, j) {
                None => m,
                Some((last, k)) => {
                    let p = space_end(s, k);
                    proof {
                        lemma_token_advances(s, k);
                    }
                    match token(s, k) {
                        Some((base, l)) => after_bfrange(s, l, m.ranged(first, last, base)),
                        None => if p < s.len() && s[p] == '[' {
                            match (
                                hex_number(trimmed(first), 0xFFFF),
                                hex_number(trimmed(last), 0xFFFF),
                            ) {
                                (Some(a), Some(b)) => {
                                    let (chars, q) = after_list(
                                        s,
                                        p + 1,
                                        a as int,
                                        b as int,
                                        m.chars,
                                    );
                                    proof {
                                        lemma_list_advances(s, p + 1, a as int, b as int, m.chars);
                                    }
                                    after_bfrange(s, q, CMapModel { chars, ..m })
                                },
                                _ => {
                                    proof {
                                        lemma_char_from(s, ']', p + 1);
                                    }
                                    after_bfrange(s, past(s, char_from(s, ']', p + 1)), m)
                                },
                            }
                        } else {
                            m
                        },
                    }
                },
            }
        },
    }
}

// ---------------------------------------------------------------------------------------------
// The whole table
// ---------------------------------------------------------------------------------------------

/// The section between `begin` and `end` that comes next from `pos` on, and the position of its
/// end marker.
pub open spec fn section_from(text: Seq<char>, begin: Seq<char>, end: Seq<char>, pos: int) -> Option<
    (Seq<char>, int),
> {
    match found_from(text, begin, pos) {
        Some(a) => match found_from(text, end, a + begin.len()) {
            Some(e) => Some((text.subrange(a + begin.len(), e), e)),
            None => None,
        },
        None => None,
    }
}

/// Each section takes the position further.
pub proof fn lemma_section_advances(text: Seq<char>, begin: Seq<char>, end: Seq<char>, pos: int)
    requires
        0 <= pos <= text.len(),
        begin.len() > 0,
    ensures
        section_from(text, begin, end, pos) matches Some((section, e)) ==> pos < e <= text.len(),
{
    lemma_found_from(text, begin, pos);
    match found_from(text, begin, pos) {
        Some(a) => {
            lemma_found_from(text, end, a + begin.len());
        },
        None => {},
    }
}

/// Finds the section between `begin` and `end` that comes next from `pos` on.
fn find_section<'a>(text: &'a [char], begin: &str, end: &str, pos: usize) -> (r: Option<
    (&'a [char], usize),
>)
    requires
        pos <= text@.len(),
        begin@.len() > 0,
    ensures
        r is Some <==> section_from(text@, begin@, end@, pos as int) is Some,
        r matches Some((section, e)) ==> section_from(text@, begin@, end@, pos as int) == Some(
            (section@, e as int),
        ) && pos < e <= text@.len(),
{
    proof {
        lemma_section_advances(text@, begin@, end@, pos as int);
    }
    match find_text(text, begin, pos) {
        Some(a) => {
            let len: usize = text.len();
            assert(a + begin@.len() <= len);
            let from: usize = a + begin.unicode_len();
            match find_text(text, end, from) {
                Some(e) => Some((slice_subrange(text, from, e), e)),
                None => None,
            }
        },
        None => None,
    }
}

/// What is known after all `beginbfchar` sections from `pos` on.
pub open spec fn after_bfchar_sections(text: Seq<char>, pos: int, m: CMapModel) -> CMapModel
    decreases text.len() - pos,
    when 0 <= pos <= text.len()
{
    proof {
        reveal_strlit("beginbfchar");
        lemma_section_advances(text, "beginbfchar"@, "endbfchar"@, pos);
    }
    match section_from(text, "beginbfchar"@, "endbfchar"@, pos) {
        Some((section, e)) => after_bfchar_sections(text, e, after_bfchar(section, 0, m)),
        None => m,
    }
}

/// What is known after all `beginbfrange` sections from `pos` on.
pub open spec fn after_bfrange_sections(text: Seq<char>, pos: int, m: CMapModel) -> CMapModel
    decreases text.len() - pos,
    when 0 <= pos <= text.len()
{
    proof {
        reveal_strlit("beginbfrange");
        lemma_section_advances(text, "beginbfrange"@, "endbfrange"@, pos);
    }
    match section_from(text, "beginbfrange"@, "endbfrange"@, pos) {
        Some((section, e)) => after_bfrange_sections(text, e, after_bfrange(section, 0, m)),
        None => m,
    }
}

/// The width in bytes of the last token of digits from `i` on. `digits` counts those of the token
/// that is being read, if one is; `width` is the width found before.
pub open spec fn codespace_from(s: Seq<char>, i: int, digits: Option<nat>, width: Option<u8>) -> Option<
    u8,
>
    decreases s.len() - i,
{
    if i < 0 || i >= s.len() {
        width
    } else if s[i] == '<' {
        codespace_from(s, i + 1, Some(0), width)
    } else if s[i] == '>' {
        let found = match digits {
            Some(n) => if n > 0 {
                Some(((n + 1) / 2 % 256) as u8)
            } else {
                width
            },
            None => width,
        };
        codespace_from(s, i + 1, None, found)
    } else {
        let counted = match digits {
            Some(n) => if hex_digit(s[i]) is Some {
                Some(n + 1)
            } else {
                digits
            },
            None => digits,
        };
        codespace_from(s, i + 1, counted, width)
    }
}

/// The width in bytes that the first codespace section gives, if there is one that gives any.
pub open spec fn codespace_width(text: Seq<char>) -> Option<u8> {
    match section_from(text, "begincodespacerange"@, "endcodespacerange"@, 0) {
        Some((section, e)) => codespace_from(section, 0, None, None),
        None => None,
    }
}

/// Reads the width in bytes that a codespace section gives.
fn parse_codespace(section: &[char]) -> (r: Option<u8>)
    ensures
        r == codespace_from(section@, 0, None, None),
{
    let mut i: usize = 0;
    let mut inside: bool = false;
    let mut digits: usize = 0;
    let mut width: Option<u8> = None;
    while i < section.len()
        invariant
            i <= section@.len(),
            digits <= i,
            codespace_from(
                section@,
                i as int,
                if inside {
                    Some(digits as nat)
                } else {
                    None
                },
                width,
            ) == codespace_from(section@, 0, None, None),
        decreases section@.len() - i,
    {
        let c: char = section[i];
        if c == '<' {
            inside = true;
            digits = 0;
        } else if c == '>' {
            if inside && digits > 0 {
                width = Some(((digits - digits / 2) % 256) as u8);
                assert((digits + 1) / 2 == digits - digits / 2);
            }
            inside = false;
        } else if inside && hex_digit_value(c).is_some() {
            digits = digits + 1;
        }
        i = i + 1;
    }
    width
}

/// Whether every source code is at most two bytes long, and there is one.
pub open spec fn all_narrow(narrow: Seq<bool>) -> bool {
    narrow.len() > 0 && forall|k: int| 0 <= k < narrow.len() ==> #[trigger] narrow[k]
}

/// The width of a code in bytes, one or two: what the codespace gives, except that a table of
/// two-byte codes whose source codes are all written as single bytes holds single bytes. A wider
/// codespace counts as one of two bytes. Without a codespace the source codes decide.
pub open spec fn code_width(codespace: Option<u8>, narrow: Seq<bool>) -> u8 {
    match codespace {
        Some(w) => if w == 1 || (w == 2 && all_narrow(narrow)) {
            1
        } else {
            2
        },
        None => if all_narrow(narrow) {
            1
        } else {
            2
        },
    }
}

/// Decides the width of a code in bytes.
fn choose_width(codespace: Option<u8>, narrow: &Vec<bool>) -> (r: u8)
    ensures
        r == code_width(codespace, narrow@),
{
    let mut all: bool = narrow.len() > 0;
    let mut i: usize = 0;
    while i < narrow.len()
        invariant
            i <= narrow@.len(),
            all == (narrow@.len() > 0 && forall|k: int| 0 <= k < i ==> #[trigger] narrow@[k]),
        decreases narrow@.len() - i,
    {
        all = all && narrow[i];
        i = i + 1;
    }
    match codespace {
        Some(w) => if w == 1 || (w == 2 && all) {
            1
        } else {
            2
        },
        None => if all {
            1
        } else {
            2
        },
    }
}

/// A row of ranges with one more put in by its first code, behind those with the same first code.
pub open spec fn with_range(ranges: Seq<(u16, u16, u32)>, range: (u16, u16, u32)) -> Seq<
    (u16, u16, u32),
>
    decreases ranges.len(),
{
    if ranges.len() == 0 || ranges.last().0 <= range.0 {
        ranges.push(range)
    } else {
        with_range(ranges.drop_last(), range).push(ranges.last())
    }
}

/// Ranges sorted by their first code; those with the same first code stay in order.
pub open spec fn by_first_code(ranges: Seq<(u16, u16, u32)>) -> Seq<(u16, u16, u32)>
    decreases ranges.len(),
{
    if ranges.len() == 0 {
        ranges
    } else {
        with_range(by_first_code(ranges.drop_last()), ranges.last())
    }
}

/// Whether the first codes never go down.
pub open spec fn is_by_first_code(ranges: Seq<(u16, u16, u32)>) -> bool {
    forall|i: int, j: int| 0 <= i <= j < ranges.len() ==> ranges[i].0 <= ranges[j].0
}

proof fn lemma_with_range(ranges: Seq<(u16, u16, u32)>, range: (u16, u16, u32))
    requires
        is_by_first_code(ranges),
    ensures
        is_by_first_code(with_range(ranges, range)),
        with_range(ranges, range).len() == ranges.len() + 1,
        with_range(ranges, range).last().0 == if ranges.len() == 0 || ranges.last().0 <= range.0 {
            range.0
        } else {
            ranges.last().0
        },
        with_range(ranges, range).to_multiset() == ranges.to_multiset().insert(range),
    decreases ranges.len(),
{
    broadcast use vstd::seq_lib::group_to_multiset_ensures;

    if ranges.len() == 0 || ranges.last().0 <= range.0 {
    } else {
        lemma_with_range(ranges.drop_last(), range);
        assert(ranges.drop_last().push(ranges.last()) =~= ranges);
        assert(with_range(ranges, range).to_multiset() =~= ranges.to_multiset().insert(range));
    }
}

/// Sorting by first code gives ranges in that order, and neither adds nor loses one.
pub proof fn lemma_by_first_code(ranges: Seq<(u16, u16, u32)>)
    ensures
        is_by_first_code(by_first_code(ranges)),
        by_first_code(ranges).to_multiset() == ranges.to_multiset(),
        by_first_code(ranges).len() == ranges.len(),
    decreases ranges.len(),
{
    broadcast use vstd::seq_lib::group_to_multiset_ensures;

    if ranges.len() > 0 {
        lemma_by_first_code(ranges.drop_last());
        lemma_with_range(by_first_code(ranges.drop_last()), ranges.last());
        assert(ranges.drop_last().push(ranges.last()) =~= ranges);
    }
}

proof fn lemma_with_range_split(
    head: Seq<(u16, u16, u32)>,
    tail: Seq<(u16, u16, u32)>,
    range: (u16, u16, u32),
)
    requires
        forall|k: int| 0 <= k < tail.len() ==> range.0 < #[trigger] tail[k].0,
    ensures
        with_range(head + tail, range) == with_range(head, range) + tail,
    decreases tail.len(),
{
    if tail.len() == 0 {
        assert(head + tail =~= head);
        assert(with_range(head, range) + tail =~= with_range(head, range));
    } else {
        let all = head + tail;
        assert(all.last() == tail.last());
        assert(all.drop_last() =~= head + tail.drop_last());
        lemma_with_range_split(head, tail.drop_last(), range);
        assert(with_range(all, range) =~= with_range(head, range) + tail);
    }
}

/// Sorts ranges by their first code.
fn sort_by_first_code(ranges: Vec<(u16, u16, u32)>) -> (r: Vec<(u16, u16, u32)>)
    ensures
        r@ == by_first_code(ranges@),
{
    let mut out: Vec<(u16, u16, u32)> = Vec::new();
    let mut i: usize = 0;
    assert(out@ =~= by_first_code(ranges@.take(0)));
    while i < ranges.len()
        invariant
            i <= ranges@.len(),
            out@ == by_first_code(ranges@.take(i as int)),
        decreases ranges@.len() - i,
    {
        let range = ranges[i];
        let mut p: usize = out.len();
        while p > 0 && out[p - 1].0 > range.0
            invariant
                p <= out@.len(),
                forall|k: int| p <= k < out@.len() ==> range.0 < #[trigger] out@[k].0,
            decreases p,
        {
            p = p - 1;
        }
        proof {
            let before = out@;
            let head = before.take(p as int);
            let tail = before.skip(p as int);
            assert(before =~= head + tail);
            lemma_with_range_split(head, tail, range);
            assert(head.len() == 0 || head.last().0 <= range.0);
            assert(with_range(head, range) == head.push(range));
            assert(before.insert(p as int, range) =~= head.push(range) + tail);
            assert(ranges@.take(i + 1).drop_last() =~= ranges@.take(i as int));
        }
        out.insert(p, range);
        i = i + 1;
    }
    assert(ranges@.take(i as int) =~= ranges@);
    out
}

/// A parsed ToUnicode CMap: which text each character code of a font stands for.
#[derive(Debug, Clone)]
pub struct ToUnicodeCMap {
    /// Codes that are mapped one by one.
    pub char_map: HashMap<u16, String>,
    /// Ranges of codes: the first code, the last code, and the character that the first stands
    /// for. The others follow on.
    pub ranges: Vec<(u16, u16, u32)>,
    /// How many bytes a code takes.
    pub code_byte_length: u8,
}

/// A mapping to strings as a mapping to texts.
pub open spec fn texts(map: Map<u16, String>) -> Map<u16, Seq<char>> {
    map.map_values(|s: String| s@)
}

proof fn lemma_texts_insert(map: Map<u16, String>, code: u16, s: String)
    ensures
        texts(map.insert(code, s)) == texts(map).insert(code, s@),
{
    assert(texts(map.insert(code, s)) =~= texts(map).insert(code, s@));
}

/// What the text of a CMap says, if it maps anything: the codes mapped one by one, the ranges by
/// their first code, and the width of a code.
pub open spec fn cmap_of(text: Seq<char>) -> Option<
    (Map<u16, Seq<char>>, Seq<(u16, u16, u32)>, u8),
> {
    let m = after_bfrange_sections(text, 0, after_bfchar_sections(text, 0, CMapModel::empty()));
    if m.chars.is_empty() && m.ranges.len() == 0 {
        None
    } else {
        Some((m.chars, by_first_code(m.ranges), code_width(codespace_width(text), m.narrow)))
    }
}

/// The character that the range at `i` gives for a code, if it covers the code and reaches a
/// character.
pub open spec fn range_text(ranges: Seq<(u16, u16, u32)>, i: int, code: u16) -> Option<Seq<char>> {
    if 0 <= i < ranges.len() && ranges[i].0 <= code <= ranges[i].1 && is_scalar_value(
        ranges[i].2 + code - ranges[i].0,
    ) {
        Some(seq![(ranges[i].2 + code - ranges[i].0) as char])
    } else {
        None
    }
}

/// How many ranges of a sorted row start before a code.
pub open spec fn starts_below(ranges: Seq<(u16, u16, u32)>, code: u16) -> int
    decreases ranges.len(),
{
    if ranges.len() == 0 || ranges.last().0 < code {
        ranges.len() as int
    } else {
        starts_below(ranges.drop_last(), code)
    }
}

/// The text that a code stands for. A code mapped by itself comes first, then the first of the
/// ranges that do not start before the code, then the last of those that do.
pub open spec fn code_text(
    chars: Map<u16, Seq<char>>,
    ranges: Seq<(u16, u16, u32)>,
    code: u16,
) -> Option<Seq<char>> {
    if chars.dom().contains(code) {
        Some(chars[code])
    } else {
        let p = starts_below(ranges, code);
        match range_text(ranges, p, code) {
            Some(t) => Some(t),
            None => range_text(ranges, p - 1, code),
        }
    }
}

proof fn lemma_starts_below(ranges: Seq<(u16, u16, u32)>, code: u16, p: int)
    requires
        0 <= p <= ranges.len(),
        forall|k: int| 0 <= k < p ==> (#[trigger] ranges[k]).0 < code,
        forall|k: int| p <= k < ranges.len() ==> (#[trigger] ranges[k]).0 >= code,
    ensures
        starts_below(ranges, code) == p,
    decreases ranges.len(),
{
    if p < ranges.len() {
        lemma_starts_below(ranges.drop_last(), code, p);
    } else if p > 0 {
        assert(ranges[p - 1].0 < code);
    }
}

/// The codes in a row of bytes: single bytes, or pairs with the high byte first. An odd byte at
/// the end is no code.
pub open spec fn codes_of(bytes: Seq<u8>, width: u8) -> Seq<u16> {
    if width == 1 {
        Seq::new(bytes.len(), |i: int| bytes[i] as u16)
    } else {
        Seq::new(
            bytes.len() / 2,
            |i: int| (bytes[2 * i] as int * 256 + bytes[2 * i + 1] as int) as u16,
        )
    }
}

/// Whether a token is at most two bytes long.
fn is_narrow(s: &[char]) -> (r: bool)
    ensures
        r == (utf8_size(s@) <= 2),
{
    proof {
        lemma_utf8_size_at_least(s@);
        reveal_with_fuel(utf8_size, 3);
    }
    if s.len() == 0 {
        true
    } else if s.len() == 1 {
        utf8_width_of(s[0]) <= 2
    } else {
        s.len() == 2 && utf8_width_of(s[0]) == 1 && utf8_width_of(s[1]) == 1
    }
}

impl ToUnicodeCMap {
    /// What has been read so far, together with what is known of the source codes.
    pub open spec fn model(self, narrow: Seq<bool>) -> CMapModel {
        CMapModel { chars: texts(self.char_map@), ranges: self.ranges@, narrow }
    }

    /// Enters a text for a code.
    fn insert_text(&mut self, code: u16, text: String)
        ensures
            texts(final(self).char_map@) == texts(old(self).char_map@).insert(code, text@),
            final(self).ranges == old(self).ranges,
            final(self).code_byte_length == old(self).code_byte_length,
    {
        proof {
            lemma_texts_insert(self.char_map@, code, text);
        }
        self.char_map.insert(code, text);
    }

    /// Reads a section of `<code> <text>` pairs.
    fn parse_bfchar_section(&mut self, section: &[char], narrow: &mut Vec<bool>)
        ensures
            final(self).model(final(narrow)@) == after_bfchar(
                section@,
                0,
                old(self).model(old(narrow)@),
            ),
            final(self).code_byte_length == old(self).code_byte_length,
    {
        let mut i: usize = 0;
        let ghost start = self.model(narrow@);
        loop
            invariant
                start == old(self).model(old(narrow)@),
                i <= section@.len(),
                after_bfchar(section@, i as int, self.model(narrow@)) == after_bfchar(
                    section@,
                    0,
                    start,
                ),
                self.code_byte_length == old(self).code_byte_length,
            decreases section@.len() - i,
        {
            let ghost before = self.model(narrow@);
            let (source, j) = match read_token(section, i) {
                Some(t) => t,
                None => {
                    return;
                },
            };
            let code = trim(source);
            if code.len() > 0 {
                narrow.push(is_narrow(code));
            }
            assert(self.model(narrow@) =~= before.noted(source@));
            let (target, k) = match read_token(section, j) {
                Some(t) => t,
                None => {
                    return;
                },
            };
            match (parse_hex_u16(source), hex_to_unicode_string(target)) {
                (Some(code), Some(text)) => {
                    self.insert_text(code, text);
                },
                _ => {},
            }
            assert(self.model(narrow@) =~= before.noted(source@).mapped(source@, target@));
            i = k;
        }
    }

    /// Reads the list of texts of a range, from behind its opening bracket.
    fn parse_bfrange_list(&mut self, section: &[char], start: usize, first: u16, last: u16) -> (r:
        usize)
        requires
            start <= section@.len(),
        ensures
            (texts(final(self).char_map@), r as int) == after_list(
                section@,
                start as int,
                first as int,
                last as int,
                texts(old(self).char_map@),
            ),
            start <= r <= section@.len(),
            final(self).ranges == old(self).ranges,
            final(self).code_byte_length == old(self).code_byte_length,
    {
        let mut i: usize = start;
        let mut code: u16 = first;
        proof {
            lemma_list_advances(
                section@,
                start as int,
                first as int,
                last as int,
                texts(self.char_map@),
            );
        }
        loop
            invariant
                start <= i <= section@.len(),
                after_list(
                    section@,
                    i as int,
                    code as int,
                    last as int,
                    texts(self.char_map@),
                ) == after_list(
                    section@,
                    start as int,
                    first as int,
                    last as int,
                    texts(old(self).char_map@),
                ),
                self.ranges == old(self).ranges,
                self.code_byte_length == old(self).code_byte_length,
            decreases section@.len() - i,
        {
            proof {
                lemma_token_advances(section@, i as int);
            }
            match read_token(section, i) {
                Some((target, j)) => {
                    match hex_to_unicode_string(target) {
                        Some(text) => {
                            self.insert_text(code, text);
                        },
                        None => {},
                    }
                    if code >= last {
                        let p: usize = find_char(section, ']', j);
                        return if p < section.len() {
                            p + 1
                        } else {
                            p
                        };
                    }
                    code = code + 1;
                    i = j;
                },
                None => {
                    let p: usize = skip_spaces(section, i);
                    return if p < section.len() && section[p] == ']' {
                        p + 1
                    } else {
                        p
                    };
                },
            }
        }
    }

    /// Reads a section of ranges.
    fn parse_bfrange_section(&mut self, section: &[char], narrow: &mut Vec<bool>)
        ensures
            final(self).model(final(narrow)@) == after_bfrange(
                section@,
                0,
                old(self).model(old(narrow)@),
            ),
            final(self).code_byte_length == old(self).code_byte_length,
    {
        let mut i: usize = 0;
        let ghost start = self.model(narrow@);
        loop
            invariant
                start == old(self).model(old(narrow)@),
                i <= section@.len(),
                after_bfrange(section@, i as int, self.model(narrow@)) == after_bfrange(
                    section@,
                    0,
                    start,
                ),
                self.code_byte_length == old(self).code_byte_length,
            decreases section@.len() - i,
        {
            let ghost before = self.model(narrow@);
            let (first, j) = match read_token(section, i) {
                Some(t) => t,
                None => {
                    return;
                },
            };
            let code = trim(first);
            if code.len() > 0 {
                narrow.push(is_narrow(code));
            }
            let ghost noted = before.noted(first@);
            assert(self.model(narrow@) =~= noted);
            let (last, k) = match read_token(section, j) {
                Some(t) => t,
                None => {
                    return;
                },
            };
            match read_token(section, k) {
                Some((base, l)) => {
                    match (parse_hex_u16(first), parse_hex_u16(last), parse_hex_u32(base)) {
                        (Some(a), Some(b), Some(c)) => {
                            self.ranges.push((a, b, c));
                        },
                        _ => {},
                    }
                    assert(self.model(narrow@) =~= noted.ranged(first@, last@, base@));
                    i = l;
                },
                None => {
                    let p: usize = skip_spaces(section, k);
                    if p < section.len() && section[p] == '[' {
                        match (parse_hex_u16(first), parse_hex_u16(last)) {
                            (Some(a), Some(b)) => {
                                let q: usize = self.parse_bfrange_list(section, p + 1, a, b);
                                assert(self.model(narrow@) =~= (CMapModel {
                                    chars: texts(self.char_map@),
                                    ..noted
                                }));
                                i = q;
                            },
                            _ => {
                                let e: usize = find_char(section, ']', p + 1);
                                i = if e < section.len() {
                                    e + 1
                                } else {
                                    e
                                };
                            },
                        }
                    } else {
                        return;
                    }
                },
            }
        }
    }

    /// A table is well formed where its ranges are in the order of their first codes.
    pub open spec fn wf(self) -> bool {
        is_by_first_code(self.ranges@)
    }

    /// The text that a code stands for.
    pub open spec fn text_of(self, code: u16) -> Option<Seq<char>> {
        code_text(texts(self.char_map@), self.ranges@, code)
    }

    /// A table that maps nothing.
    pub fn new() -> (r: Self)
        ensures
            r.char_map@ == Map::<u16, String>::empty(),
            r.ranges@ == Seq::<(u16, u16, u32)>::empty(),
            r.code_byte_length == 0,
            r.wf(),
    {
        ToUnicodeCMap { char_map: HashMap::new(), ranges: Vec::new(), code_byte_length: 0 }
    }

    /// Reads the decompressed bytes of a CMap. `None` where they map nothing.
    pub fn parse(content: &[u8]) -> (r: Option<Self>)
        ensures
            r is Some <==> cmap_of(lossy_text(content@)) is Some,
            r matches Some(cmap) ==> cmap.wf() && cmap_of(lossy_text(content@)) == Some(
                (texts(cmap.char_map@), cmap.ranges@, cmap.code_byte_length),
            ) && 1 <= cmap.code_byte_length <= 2,
            vstd::utf8::valid_utf8(content@) ==> lossy_text(content@) == vstd::utf8::decode_utf8(
                content@,
            ),
    {
        let text = text_from_utf8_lossy(content);
        Self::parse_text(text.as_str())
    }

    /// Reads the text of a CMap. `None` where it maps nothing.
    pub fn parse_text(text: &str) -> (r: Option<Self>)
        ensures
            r is Some <==> cmap_of(text@) is Some,
            r matches Some(cmap) ==> cmap.wf() && cmap_of(text@) == Some(
                (texts(cmap.char_map@), cmap.ranges@, cmap.code_byte_length),
            ) && 1 <= cmap.code_byte_length <= 2,
    {
        proof {
            reveal_strlit("begincodespacerange");
            reveal_strlit("beginbfchar");
            reveal_strlit("beginbfrange");
        }
        let chars_vec = chars_of(text);
        let s = chars_vec.as_slice();
        let mut cmap = Self::new();
        let mut narrow: Vec<bool> = Vec::new();
        assert(cmap.model(narrow@) =~= CMapModel::empty());

        let codespace: Option<u8> = match find_section(
            s,
            "begincodespacerange",
            "endcodespacerange",
            0,
        ) {
            Some((section, _)) => parse_codespace(section),
            None => None,
        };

        let ghost start = cmap.model(narrow@);
        let mut pos: usize = 0;
        loop
            invariant
                pos <= s@.len(),
                "beginbfchar"@.len() > 0,
                after_bfchar_sections(s@, pos as int, cmap.model(narrow@)) == after_bfchar_sections(
                    s@,
                    0,
                    start,
                ),
                cmap.code_byte_length == 0,
            ensures
                cmap.model(narrow@) == after_bfchar_sections(s@, 0, start),
            decreases s@.len() - pos,
        {
            match find_section(s, "beginbfchar", "endbfchar", pos) {
                Some((section, e)) => {
                    cmap.parse_bfchar_section(section, &mut narrow);
                    pos = e;
                },
                None => {
                    break;
                },
            }
        }

        let ghost middle = cmap.model(narrow@);
        pos = 0;
        loop
            invariant
                pos <= s@.len(),
                "beginbfrange"@.len() > 0,
                after_bfrange_sections(s@, pos as int, cmap.model(narrow@))
                    == after_bfrange_sections(s@, 0, middle),
                cmap.code_byte_length == 0,
            ensures
                cmap.model(narrow@) == after_bfrange_sections(s@, 0, middle),
            decreases s@.len() - pos,
        {
            match find_section(s, "beginbfrange", "endbfrange", pos) {
                Some((section, e)) => {
                    cmap.parse_bfrange_section(section, &mut narrow);
                    pos = e;
                },
                None => {
                    break;
                },
            }
        }

        assert(cmap.char_map@.is_empty() <==> texts(cmap.char_map@).is_empty()) by {
            assert(cmap.char_map@.dom() =~= texts(cmap.char_map@).dom());
        }
        if cmap.char_map.is_empty() && cmap.ranges.len() == 0 {
            return None;
        }
        let width: u8 = choose_width(codespace, &narrow);
        proof {
            lemma_by_first_code(cmap.ranges@);
        }
        Some(
            ToUnicodeCMap {
                char_map: cmap.char_map,
                ranges: sort_by_first_code(cmap.ranges),
                code_byte_length: width,
            },
        )
    }

    /// The character that the range at `i` gives for a code.
    fn range_char(&self, i: usize, code: u16) -> (r: Option<char>)
        requires
            i < self.ranges@.len(),
        ensures
            r is Some <==> range_text(self.ranges@, i as int, code) is Some,
            r matches Some(c) ==> range_text(self.ranges@, i as int, code) == Some(seq![c]),
    {
        let (first, last, base) = self.ranges[i];
        if first <= code && code <= last {
            match base.checked_add((code - first) as u32) {
                Some(unicode) => char::from_u32(unicode),
                None => None,
            }
        } else {
            None
        }
    }

    /// The text that a code stands for, if it stands for any.
    pub fn lookup(&self, cid: u16) -> (r: Option<String>)
        requires
            self.wf(),
        ensures
            r is Some <==> self.text_of(cid) is Some,
            r matches Some(s) ==> self.text_of(cid) == Some(s@),
    {
        match self.char_map.get(&cid) {
            Some(s) => {
                return Some(s.clone());
            },
            None => {},
        }
        let mut low: usize = 0;
        let mut high: usize = self.ranges.len();
        while low < high
            invariant
                self.wf(),
                low <= high <= self.ranges@.len(),
                forall|k: int| 0 <= k < low ==> (#[trigger] self.ranges@[k]).0 < cid,
                forall|k: int|
                    high <= k < self.ranges@.len() ==> (#[trigger] self.ranges@[k]).0 >= cid,
            decreases high - low,
        {
            let middle: usize = low + (high - low) / 2;
            if self.ranges[middle].0 < cid {
                low = middle + 1;
            } else {
                high = middle;
            }
        }
        proof {
            lemma_starts_below(self.ranges@, cid, low as int);
        }
        if low < self.ranges.len() {
            match self.range_char(low, cid) {
                Some(c) => {
                    return Some(string_of(&[c]));
                },
                None => {},
            }
        }
        if low > 0 {
            match self.range_char(low - 1, cid) {
                Some(c) => {
                    return Some(string_of(&[c]));
                },
                None => {},
            }
        }
        None
    }

    /// The text that a code stands for, unless a replacement character shows that it is unknown.
    pub open spec fn usable_text(self, code: u16) -> Option<Seq<char>> {
        match self.text_of(code) {
            Some(t) => if t.contains('\u{FFFD}') {
                None
            } else {
                Some(t)
            },
            None => None,
        }
    }

    /// The text of a row of codes. An unmapped single-byte code stands for the character with
    /// that number, unless it is a control code; any other unmapped code stands for nothing.
    pub open spec fn codes_text(self, codes: Seq<u16>) -> Seq<char>
        decreases codes.len(),
    {
        if codes.len() == 0 {
            seq![]
        } else {
            self.codes_text(codes.drop_last()) + match self.usable_text(codes.last()) {
                Some(t) => t,
                None => if self.code_byte_length == 1 && codes.last() >= 0x20 {
                    seq![codes.last() as char]
                } else {
                    seq![]
                },
            }
        }
    }

    /// How many codes of a row are unmapped.
    pub open spec fn unmapped(self, codes: Seq<u16>) -> nat
        decreases codes.len(),
    {
        if codes.len() == 0 {
            0
        } else {
            self.unmapped(codes.drop_last()) + if self.usable_text(codes.last()) is Some {
                0nat
            } else {
                1nat
            }
        }
    }

    /// What a row of bytes decodes to: nothing where more than half of its codes are unmapped.
    pub open spec fn decoded(self, bytes: Seq<u8>) -> Seq<char> {
        let codes = codes_of(bytes, self.code_byte_length);
        if self.unmapped(codes) > codes.len() / 2 {
            seq![]
        } else {
            self.codes_text(codes)
        }
    }

    /// Appends the text of one code, and says whether the code is mapped.
    fn push_code(&self, code: u16, out: &mut String) -> (r: bool)
        requires
            self.wf(),
            self.code_byte_length == 1 ==> code <= 0xFF,
        ensures
            r == (self.usable_text(code) is Some),
            forall|codes: Seq<u16>|
                codes.len() > 0 && codes.last() == code && old(out)@ == self.codes_text(
                    codes.drop_last(),
                ) ==> final(out)@ == #[trigger] self.codes_text(codes),
    {
        match self.lookup(code) {
            Some(text) => {
                if !contains_char(chars_of(text.as_str()).as_slice(), '\u{FFFD}') {
                    out.append(text.as_str());
                    return true;
                }
            },
            None => {},
        }
        let ghost before = out@;
        if self.code_byte_length == 1 && code >= 0x20 {
            out.push(code as u8 as char);
            assert(out@ =~= before + seq![code as char]);
        } else {
            assert(out@ =~= before + seq![]);
        }
        false
    }

    /// Decodes a row of bytes. Where too many of its codes are unmapped the result is empty, so
    /// that the caller can turn to another encoding.
    pub fn decode_cids(&self, bytes: &[u8]) -> (r: String)
        requires
            self.wf(),
        ensures
            r@ == self.decoded(bytes@),
    {
        let mut out: String = String::new();
        let mut missed: usize = 0;
        let len: usize = bytes.len();
        let total: usize = if self.code_byte_length == 1 {
            len
        } else {
            len / 2
        };
        let ghost codes = codes_of(bytes@, self.code_byte_length);
        let mut i: usize = 0;
        assert(out@ =~= self.codes_text(codes.take(0)));
        while i < total
            invariant
                self.wf(),
                i <= total,
                total == codes.len(),
                codes == codes_of(bytes@, self.code_byte_length),
                missed <= i,
                missed == self.unmapped(codes.take(i as int)),
                out@ == self.codes_text(codes.take(i as int)),
                len == bytes@.len(),
                self.code_byte_length == 1 ==> total == len,
                self.code_byte_length != 1 ==> total == len / 2,
            decreases total - i,
        {
            let code: u16 = if self.code_byte_length == 1 {
                bytes[i] as u16
            } else {
                bytes[2 * i] as u16 * 256 + bytes[2 * i + 1] as u16
            };
            assert(code == codes[i as int]);
            let ghost next = codes.take(i + 1);
            assert(next.drop_last() =~= codes.take(i as int));
            assert(next.last() == code);
            if !self.push_code(code, &mut out) {
                missed = missed + 1;
            }
            i = i + 1;
        }
        assert(codes.take(i as int) =~= codes);
        if missed > total / 2 {
            return String::new();
        }
        out
    }
}

impl ToUnicodeCMap {
    proof fn lemma_codes_concat(self, a: Seq<u16>, b: Seq<u16>)
        ensures
            self.codes_text(a + b) == self.codes_text(a) + self.codes_text(b),
            self.unmapped(a + b) == self.unmapped(a) + self.unmapped(b),
        decreases b.len(),
    {
        if b.len() == 0 {
            assert(a + b =~= a);
            assert(self.codes_text(a) + self.codes_text(b) =~= self.codes_text(a));
        } else {
            self.lemma_codes_concat(a, b.drop_last());
            assert((a + b).drop_last() =~= a + b.drop_last());
            assert((a + b).last() == b.last());
            assert(self.codes_text(a + b) =~= self.codes_text(a) + self.codes_text(b));
        }
    }

    /// Text that is fully mapped decodes piece by piece: the pieces may be cut anywhere between
    /// two codes.
    pub proof fn lemma_decode_in_pieces(self, a: Seq<u8>, b: Seq<u8>)
        requires
            self.code_byte_length == 1 || a.len() % 2 == 0,
            self.unmapped(codes_of(a, self.code_byte_length)) == 0,
            self.unmapped(codes_of(b, self.code_byte_length)) == 0,
        ensures
            self.decoded(a + b) == self.decoded(a) + self.decoded(b),
    {
        let width = self.code_byte_length;
        let codes = codes_of(a, width) + codes_of(b, width);
        assert(codes_of(a + b, width) =~= codes);
        self.lemma_codes_concat(codes_of(a, width), codes_of(b, width));
    }

    proof fn lemma_codes_text_source(self, codes: Seq<u16>, c: char)
        requires
            self.code_byte_length != 1,
            self.codes_text(codes).contains(c),
        ensures
            exists|i: int|
                0 <= i < codes.len() && #[trigger] self.usable_text(codes[i]) is Some
                    && self.usable_text(codes[i])->0.contains(c),
        decreases codes.len(),
    {
        if codes.len() > 0 {
            let head = self.codes_text(codes.drop_last());
            let p = choose|p: int|
                0 <= p < self.codes_text(codes).len() && self.codes_text(codes)[p] == c;
            if p < head.len() {
                assert(head[p] == c);
                self.lemma_codes_text_source(codes.drop_last(), c);
                let i = choose|i: int|
                    0 <= i < codes.drop_last().len() && #[trigger] self.usable_text(
                        codes.drop_last()[i],
                    ) is Some && self.usable_text(codes.drop_last()[i])->0.contains(c);
                assert(codes[i] == codes.drop_last()[i]);
            } else {
                let last = codes.len() - 1;
                assert(codes[last] == codes.last());
                assert(self.usable_text(codes[last])->0[p - head.len()] == c);
            }
        }
    }

    /// Two-byte codes never turn into characters by their number: each character of the decoded
    /// text comes from a code that the table maps.
    pub proof fn lemma_no_unmapped_characters(self, bytes: Seq<u8>, c: char)
        requires
            self.code_byte_length != 1,
            self.decoded(bytes).contains(c),
        ensures
            exists|i: int|
                0 <= i < codes_of(bytes, self.code_byte_length).len() && (
                #[trigger] self.usable_text(codes_of(bytes, self.code_byte_length)[i])) is Some
                    && self.usable_text(
                    codes_of(bytes, self.code_byte_length)[i],
                )->0.contains(c),
    {
        self.lemma_codes_text_source(codes_of(bytes, self.code_byte_length), c);
    }
}

impl Default for ToUnicodeCMap {
    fn default() -> (r: Self)
        ensures
            r.char_map@ == Map::<u16, String>::empty(),
            r.ranges@ == Seq::<(u16, u16, u32)>::empty(),
            r.code_byte_length == 0,
    {
        ToUnicodeCMap::new()
    }
}

} // verus!
