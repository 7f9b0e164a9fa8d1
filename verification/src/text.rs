//! Characters and strings: the small vocabulary that the rest of the crate is stated in.
//!
//! A string is modelled by its sequence of characters. Executable code works on vectors of
//! characters, to which [`chars_of`] and [`string_of`] convert.

use vstd::prelude::*;
use vstd::slice::slice_subrange;

verus! {

/// `String::push`: the character is appended at the end.
pub assume_specification[ std::string::String::push ](s: &mut std::string::String, c: char)
    ensures
        final(s)@ == old(s)@.push(c),
;

/// `char::from_u32`: a number that is a Unicode scalar value gives that character, any other
/// number gives `None`.
pub assume_specification[ char::from_u32 ](code: u32) -> (r: Option<char>)
    ensures
        r == if is_scalar_value(code as int) {
            Some(code as char)
        } else {
            None
        },
;

/// What `String::from_utf8_lossy` makes of a row of bytes.
pub uninterp spec fn lossy_text(bytes: Seq<u8>) -> Seq<char>;

/// `String::from_utf8_lossy`: bytes that are valid UTF-8 give the text that they encode. Of other
/// bytes nothing is said here but that the text depends on the bytes alone.
#[verifier::external_body]
pub(crate) fn text_from_utf8_lossy(bytes: &[u8]) -> (r: String)
    ensures
        r@ == lossy_text(bytes@),
        vstd::utf8::valid_utf8(bytes@) ==> r@ == vstd::utf8::decode_utf8(bytes@),
{
    String::from_utf8_lossy(bytes).into_owned()
}

/// Whether two numbers are a surrogate pair.
pub open spec fn is_pair(high: int, low: int) -> bool {
    0xD800 <= high <= 0xDBFF && 0xDC00 <= low <= 0xDFFF
}

/// The character that a surrogate pair stands for.
pub open spec fn pair_char(high: int, low: int) -> char {
    (0x10000 + (high - 0xD800) * 0x400 + (low - 0xDC00)) as char
}

/// The character with a number, as a text; nothing where there is none.
pub open spec fn scalar_text(code: int) -> Seq<char> {
    if is_scalar_value(code) {
        seq![code as char]
    } else {
        seq![]
    }
}

/// The text that UTF-16 units encode. Surrogates that are no pair become replacement characters.
pub open spec fn utf16_text(units: Seq<u16>) -> Seq<char>
    decreases units.len(),
{
    if units.len() == 0 {
        seq![]
    } else if units.len() > 1 && is_pair(units[0] as int, units[1] as int) {
        seq![pair_char(units[0] as int, units[1] as int)] + utf16_text(units.skip(2))
    } else if is_scalar_value(units[0] as int) {
        seq![units[0] as char] + utf16_text(units.skip(1))
    } else {
        seq!['\u{FFFD}'] + utf16_text(units.skip(1))
    }
}

/// `String::from_utf16_lossy`: the text that UTF-16 units encode, with a replacement character for
/// each surrogate that is not one of a pair.
#[verifier::external_body]
pub(crate) fn text_from_utf16_lossy(units: &Vec<u16>) -> (r: String)
    ensures
        r@ == utf16_text(units@),
{
    String::from_utf16_lossy(units)
}

/// The UTF-16 units that encode a character.
pub open spec fn char_units(c: char) -> Seq<u16> {
    let code = c as int;
    if code < 0x10000 {
        seq![c as u16]
    } else {
        seq![
            (0xD800 + (code - 0x10000) / 0x400) as u16,
            (0xDC00 + (code - 0x10000) % 0x400) as u16,
        ]
    }
}

/// The UTF-16 units that encode a text.
pub open spec fn encoded_units(s: Seq<char>) -> Seq<u16>
    decreases s.len(),
{
    if s.len() == 0 {
        seq![]
    } else {
        char_units(s[0]) + encoded_units(s.skip(1))
    }
}

pub(crate) proof fn lemma_char_units(c: char)
    ensures
        is_scalar_value(c as int),
        (c as int) < 0x10000 ==> char_units(c) == seq![c as u16] && (c as u16) as char == c && (
        c as u16) as int == c as int,
        (c as int) >= 0x10000 ==> char_units(c).len() == 2 && is_pair(
            char_units(c)[0] as int,
            char_units(c)[1] as int,
        ) && pair_char(char_units(c)[0] as int, char_units(c)[1] as int) == c,
{
    let code = c as int;
    if code >= 0x10000 {
        let high = 0xD800 + (code - 0x10000) / 0x400;
        let low = 0xDC00 + (code - 0x10000) % 0x400;
        assert(0x10000 + (high - 0xD800) * 0x400 + (low - 0xDC00) == code);
    }
}

/// What encodes a text in UTF-16 decodes to the text.
pub proof fn lemma_utf16_round_trip(s: Seq<char>)
    ensures
        utf16_text(encoded_units(s)) == s,
    decreases s.len(),
{
    if s.len() > 0 {
        let rest = encoded_units(s.skip(1));
        let all = encoded_units(s);
        let c = s[0];
        lemma_utf16_round_trip(s.skip(1));
        lemma_char_units(c);
        assert(seq![c] + s.skip(1) =~= s);
        if (c as int) < 0x10000 {
            assert(all[0] == c as u16);
            assert(all.skip(1) =~= rest);
        } else {
            assert(all[0] == char_units(c)[0] && all[1] == char_units(c)[1]);
            assert(all.skip(2) =~= rest);
        }
    }
}

/// Whether a number is a Unicode scalar value: in range and not a surrogate.
pub open spec fn is_scalar_value(code: int) -> bool {
    0 <= code < 0xD800 || 0xE000 <= code <= 0x10FFFF
}

/// The characters of a string.
pub fn chars_of(s: &str) -> (r: Vec<char>)
    ensures
        r@ == s@,
{
    let mut out: Vec<char> = Vec::new();
    for c in it: s.chars()
        invariant
            out@ == it.seq().take(it.index()),
            it.seq() == s@,
    {
        out.push(c);
        assert(out@ =~= it.seq().take(it.index() + 1));
    }
    assert(out@ =~= s@);
    out
}

/// The string made of the given characters.
pub fn string_of(chars: &[char]) -> (r: String)
    ensures
        r@ == chars@,
{
    let mut out: String = String::new();
    let mut i: usize = 0;
    while i < chars.len()
        invariant
            i <= chars.len(),
            out@ == chars@.take(i as int),
        decreases chars.len() - i,
    {
        out.push(chars[i]);
        i = i + 1;
        assert(out@ =~= chars@.take(i as int));
    }
    assert(out@ =~= chars@);
    out
}

/// Whether a character is white space (the Unicode property `White_Space`).
pub open spec fn is_space(c: char) -> bool {
    ||| '\u{9}' <= c <= '\u{D}'
    ||| c == ' '
    ||| c == '\u{85}'
    ||| c == '\u{A0}'
    ||| c == '\u{1680}'
    ||| '\u{2000}' <= c <= '\u{200A}'
    ||| c == '\u{2028}'
    ||| c == '\u{2029}'
    ||| c == '\u{202F}'
    ||| c == '\u{205F}'
    ||| c == '\u{3000}'
}

/// Whether a character is white space.
pub fn is_whitespace(c: char) -> (r: bool)
    ensures
        r == is_space(c),
{
    ('\u{9}' <= c && c <= '\u{D}') || c == ' ' || c == '\u{85}' || c == '\u{A0}' || c == '\u{1680}'
        || ('\u{2000}' <= c && c <= '\u{200A}') || c == '\u{2028}' || c == '\u{2029}' || c
        == '\u{202F}' || c == '\u{205F}' || c == '\u{3000}'
}

/// The first position from `i` on that holds no white space, or the end.
pub open spec fn space_end(s: Seq<char>, i: int) -> int
    decreases s.len() - i,
{
    if 0 <= i < s.len() && is_space(s[i]) {
        space_end(s, i + 1)
    } else {
        i
    }
}

pub proof fn lemma_space_end(s: Seq<char>, i: int)
    requires
        0 <= i <= s.len(),
    ensures
        i <= space_end(s, i) <= s.len(),
        forall|k: int| i <= k < space_end(s, i) ==> is_space(#[trigger] s[k]),
        space_end(s, i) < s.len() ==> !is_space(s[space_end(s, i)]),
    decreases s.len() - i,
{
    if i < s.len() && is_space(s[i]) {
        lemma_space_end(s, i + 1);
    }
}

/// Skips white space from `i` on.
pub fn skip_spaces(s: &[char], i: usize) -> (r: usize)
    requires
        i <= s@.len(),
    ensures
        r == space_end(s@, i as int),
        i <= r <= s@.len(),
{
    let mut j: usize = i;
    while j < s.len() && is_whitespace(s[j])
        invariant
            i <= j <= s@.len(),
            space_end(s@, j as int) == space_end(s@, i as int),
        decreases s@.len() - j,
    {
        j = j + 1;
    }
    j
}

/// The end of `s.take(n)` without the white space that it ends in.
pub open spec fn text_end(s: Seq<char>, n: int) -> int
    decreases n,
{
    if 0 < n <= s.len() && is_space(s[n - 1]) {
        text_end(s, n - 1)
    } else {
        n
    }
}

/// A text without the white space that it starts with.
pub open spec fn trimmed_start(s: Seq<char>) -> Seq<char> {
    s.skip(space_end(s, 0))
}

/// A text without the white space that it ends in.
pub open spec fn trimmed_end(s: Seq<char>) -> Seq<char> {
    s.take(text_end(s, s.len() as int))
}

/// A text without the white space around it.
pub open spec fn trimmed(s: Seq<char>) -> Seq<char> {
    trimmed_end(trimmed_start(s))
}

/// A text without the white space around it has none to trim.
pub proof fn lemma_trimmed_is_final(s: Seq<char>)
    ensures
        trimmed(s).len() > 0 ==> !is_space(trimmed(s).first()) && !is_space(trimmed(s).last()),
        trimmed(trimmed(s)) == trimmed(s),
{
    lemma_space_end(s, 0);
    let a = trimmed_start(s);
    lemma_text_end(a, a.len() as int);
    let t = trimmed(s);
    if t.len() > 0 {
        assert(t.first() == a[0]);
        assert(t.last() == a[t.len() - 1]);
        assert(space_end(t, 0) == 0);
        assert(trimmed_start(t) =~= t);
        assert(text_end(t, t.len() as int) == t.len());
        assert(trimmed_end(t) =~= t);
    } else {
        assert(trimmed_start(t) =~= t);
        assert(trimmed_end(t) =~= t);
    }
}

pub proof fn lemma_text_end(s: Seq<char>, n: int)
    requires
        0 <= n <= s.len(),
    ensures
        0 <= text_end(s, n) <= n,
        text_end(s, n) > 0 ==> !is_space(s[text_end(s, n) - 1]),
    decreases n,
{
    if n > 0 && is_space(s[n - 1]) {
        lemma_text_end(s, n - 1);
    }
}

/// A text that neither starts nor ends with white space has none to trim.
pub proof fn lemma_trimmed_of_clean(s: Seq<char>)
    requires
        s.len() > 0,
        !is_space(s.first()),
        !is_space(s.last()),
    ensures
        trimmed(s) == s,
{
    assert(space_end(s, 0) == 0);
    assert(trimmed_start(s) =~= s);
    assert(text_end(s, s.len() as int) == s.len());
    assert(trimmed_end(s) =~= s);
}

/// The text without leading white space.
pub fn trim_start<'a>(s: &'a [char]) -> (r: &'a [char])
    ensures
        r@ == trimmed_start(s@),
{
    let a: usize = skip_spaces(s, 0);
    let r = slice_subrange(s, a, s.len());
    assert(r@ =~= s@.skip(a as int));
    r
}

/// The text without trailing white space.
pub fn trim_end<'a>(s: &'a [char]) -> (r: &'a [char])
    ensures
        r@ == trimmed_end(s@),
{
    let mut n: usize = s.len();
    while n > 0 && is_whitespace(s[n - 1])
        invariant
            n <= s@.len(),
            text_end(s@, n as int) == text_end(s@, s@.len() as int),
        decreases n,
    {
        n = n - 1;
    }
    let r = slice_subrange(s, 0, n);
    assert(r@ =~= s@.take(n as int));
    r
}

/// The text without the white space around it.
pub fn trim<'a>(s: &'a [char]) -> (r: &'a [char])
    ensures
        r@ == trimmed(s@),
{
    trim_end(trim_start(s))
}

/// The first position from `i` on that holds `c`, or the end.
pub open spec fn char_from(s: Seq<char>, c: char, i: int) -> int
    decreases s.len() - i,
{
    if 0 <= i < s.len() && s[i] != c {
        char_from(s, c, i + 1)
    } else {
        i
    }
}

pub proof fn lemma_char_from(s: Seq<char>, c: char, i: int)
    requires
        0 <= i <= s.len(),
    ensures
        i <= char_from(s, c, i) <= s.len(),
        char_from(s, c, i) < s.len() ==> s[char_from(s, c, i)] == c,
        forall|k: int| i <= k < char_from(s, c, i) ==> s[k] != c,
    decreases s.len() - i,
{
    if i < s.len() && s[i] != c {
        lemma_char_from(s, c, i + 1);
    }
}

/// Finds the first `c` from `i` on; the end where there is none.
pub fn find_char(s: &[char], c: char, i: usize) -> (r: usize)
    requires
        i <= s@.len(),
    ensures
        r == char_from(s@, c, i as int),
        i <= r <= s@.len(),
        r < s@.len() ==> s@[r as int] == c,
        forall|k: int| i <= k < r ==> s@[k] != c,
{
    let mut j: usize = i;
    while j < s.len() && s[j] != c
        invariant
            i <= j <= s@.len(),
            char_from(s@, c, j as int) == char_from(s@, c, i as int),
            forall|k: int| i <= k < j ==> s@[k] != c,
        decreases s@.len() - j,
    {
        j = j + 1;
    }
    j
}

/// Whether `pattern` stands in `s` at position `i`.
pub open spec fn stands_at(s: Seq<char>, pattern: Seq<char>, i: int) -> bool {
    0 <= i && i + pattern.len() <= s.len() && s.subrange(i, i + pattern.len()) == pattern
}

/// The first position from `i` on at which `pattern` stands.
pub open spec fn found_from(s: Seq<char>, pattern: Seq<char>, i: int) -> Option<int>
    decreases s.len() + 1 - i,
{
    if i < 0 || i + pattern.len() > s.len() {
        None
    } else if stands_at(s, pattern, i) {
        Some(i)
    } else {
        found_from(s, pattern, i + 1)
    }
}

/// Whether `pattern` stands somewhere in `s`.
pub open spec fn has_text(s: Seq<char>, pattern: Seq<char>) -> bool {
    exists|i: int| stands_at(s, pattern, i)
}

/// Whether a text starts with `pattern`.
pub open spec fn begins_with(s: Seq<char>, pattern: Seq<char>) -> bool {
    stands_at(s, pattern, 0)
}

/// Whether `pattern` stands in `s` at position `i`.
pub fn is_at(s: &[char], pattern: &str, i: usize) -> (r: bool)
    requires
        i <= s@.len(),
    ensures
        r == stands_at(s@, pattern@, i as int),
{
    let len: usize = s.len();
    let rest: usize = len - i;
    let mut k: usize = 0;
    for c in it: pattern.chars()
        invariant
            it.seq() == pattern@,
            k == it.index(),
            i <= len == s@.len(),
            rest == len - i,
            k <= rest,
            forall|m: int| 0 <= m < k ==> s@[i + m] == pattern@[m],
    {
        if k >= rest || s[i + k] != c {
            assert(i + pattern@.len() <= s@.len() ==> s@.subrange(i as int, i + pattern@.len())[k as int] == s@[i + k]);
            return false;
        }
        k = k + 1;
    }
    assert(s@.subrange(i as int, i + pattern@.len()) =~= pattern@);
    true
}

/// Whether the text starts with `pattern`.
pub fn starts_with(s: &[char], pattern: &str) -> (r: bool)
    ensures
        r == begins_with(s@, pattern@),
{
    is_at(s, pattern, 0)
}

pub proof fn lemma_found_from(s: Seq<char>, pattern: Seq<char>, i: int)
    requires
        0 <= i <= s.len(),
    ensures
        found_from(s, pattern, i) matches Some(p) ==> i <= p && stands_at(s, pattern, p),
        found_from(s, pattern, i) is None ==> forall|k: int| i <= k ==> !stands_at(s, pattern, k),
        found_from(s, pattern, i) matches Some(p) ==> forall|k: int|
            i <= k < p ==> !stands_at(s, pattern, k),
    decreases s.len() - i,
{
    if i + pattern.len() <= s.len() && !stands_at(s, pattern, i) {
        if i < s.len() {
            lemma_found_from(s, pattern, i + 1);
        } else {
            assert(s.subrange(i, i + pattern.len()) =~= pattern);
        }
    }
}

/// Finds the first place from `i` on at which `pattern` stands.
pub fn find_text(s: &[char], pattern: &str, i: usize) -> (r: Option<usize>)
    requires
        i <= s@.len(),
    ensures
        r is Some <==> found_from(s@, pattern@, i as int) is Some,
        r matches Some(p) ==> found_from(s@, pattern@, i as int) == Some(p as int) && i <= p && p
            + pattern@.len() <= s@.len(),
{
    let mut j: usize = i;
    while j < s.len()
        invariant
            i <= j <= s@.len(),
            found_from(s@, pattern@, j as int) == found_from(s@, pattern@, i as int),
        decreases s@.len() - j,
    {
        if is_at(s, pattern, j) {
            return Some(j);
        }
        proof {
            lemma_found_from(s@, pattern@, j as int);
            lemma_found_from(s@, pattern@, j + 1);
        }
        j = j + 1;
    }
    if is_at(s, pattern, j) {
        return Some(j);
    }
    proof {
        lemma_found_from(s@, pattern@, j as int);
    }
    None
}

/// Whether `pattern` stands somewhere in the text.
pub fn contains_text(s: &[char], pattern: &str) -> (r: bool)
    ensures
        r == has_text(s@, pattern@),
{
    proof {
        lemma_found_from(s@, pattern@, 0);
    }
    find_text(s, pattern, 0).is_some()
}

/// Whether the text holds the character.
pub fn contains_char(s: &[char], c: char) -> (r: bool)
    ensures
        r == s@.contains(c),
{
    let p: usize = find_char(s, c, 0);
    p < s.len()
}

/// The number of bytes that a character takes in UTF-8.
pub open spec fn utf8_width(c: char) -> nat {
    if c <= '\u{7F}' {
        1
    } else if c <= '\u{7FF}' {
        2
    } else if c <= '\u{FFFF}' {
        3
    } else {
        4
    }
}

/// The number of bytes that a character takes in UTF-8.
pub fn utf8_width_of(c: char) -> (r: usize)
    ensures
        r == utf8_width(c),
        1 <= r <= 4,
{
    if c <= '\u{7F}' {
        1
    } else if c <= '\u{7FF}' {
        2
    } else if c <= '\u{FFFF}' {
        3
    } else {
        4
    }
}

/// The number of bytes that a text takes in UTF-8.
pub open spec fn utf8_size(s: Seq<char>) -> nat
    decreases s.len(),
{
    if s.len() == 0 {
        0
    } else {
        utf8_size(s.drop_last()) + utf8_width(s.last())
    }
}

pub proof fn lemma_utf8_size_at_least(s: Seq<char>)
    ensures
        utf8_size(s) >= s.len(),
    decreases s.len(),
{
    if s.len() > 0 {
        lemma_utf8_size_at_least(s.drop_last());
    }
}

/// The value of a hexadecimal digit.
pub open spec fn hex_digit(c: char) -> Option<nat> {
    if '0' <= c <= '9' {
        Some((c as u32 - '0' as u32) as nat)
    } else if 'a' <= c <= 'f' {
        Some((c as u32 - 'a' as u32 + 10) as nat)
    } else if 'A' <= c <= 'F' {
        Some((c as u32 - 'A' as u32 + 10) as nat)
    } else {
        None
    }
}

/// The number that a row of hexadecimal digits stands for; `None` where one of them is no digit.
pub open spec fn hex_digits(s: Seq<char>) -> Option<nat>
    decreases s.len(),
{
    if s.len() == 0 {
        Some(0)
    } else {
        match (hex_digits(s.drop_last()), hex_digit(s.last())) {
            (Some(v), Some(d)) => Some(v * 16 + d),
            _ => None,
        }
    }
}

/// The number that a text stands for in base 16: at least one digit, a plus sign may stand
/// before, and the value is at most `limit`.
pub open spec fn hex_number(s: Seq<char>, limit: nat) -> Option<nat> {
    let digits = if s.len() > 0 && s[0] == '+' {
        s.skip(1)
    } else {
        s
    };
    match hex_digits(digits) {
        Some(v) => if digits.len() > 0 && v <= limit {
            Some(v)
        } else {
            None
        },
        None => None,
    }
}

/// The value of a hexadecimal digit.
pub fn hex_digit_value(c: char) -> (r: Option<u32>)
    ensures
        r is Some <==> hex_digit(c) is Some,
        r matches Some(d) ==> d < 16 && hex_digit(c) == Some(d as nat),
{
    if '0' <= c && c <= '9' {
        Some(c as u32 - '0' as u32)
    } else if 'a' <= c && c <= 'f' {
        Some(c as u32 - 'a' as u32 + 10)
    } else if 'A' <= c && c <= 'F' {
        Some(c as u32 - 'A' as u32 + 10)
    } else {
        None
    }
}

proof fn lemma_hex_digits_prefix(s: Seq<char>, n: int)
    requires
        0 <= n <= s.len(),
    ensures
        hex_digits(s.take(n)) is None ==> hex_digits(s) is None,
        hex_digits(s) is Some ==> hex_digits(s.take(n)) is Some && hex_digits(s.take(n))->0
            <= hex_digits(s)->0,
    decreases s.len(),
{
    if n < s.len() {
        lemma_hex_digits_prefix(s.drop_last(), n);
        assert(s.drop_last().take(n) =~= s.take(n));
    } else {
        assert(s.take(n) =~= s);
    }
}

/// Reads a number in base 16 that is at most `limit`.
pub fn parse_hex(s: &[char], limit: u32) -> (r: Option<u32>)
    ensures
        r is Some <==> hex_number(s@, limit as nat) is Some,
        r matches Some(v) ==> hex_number(s@, limit as nat) == Some(v as nat) && v <= limit,
{
    let start: usize = if s.len() > 0 && s[0] == '+' {
        1
    } else {
        0
    };
    let ghost digits = s@.skip(start as int);
    assert(start == 0 ==> digits =~= s@);
    if start == s.len() {
        return None;
    }
    let mut i: usize = start;
    let mut value: u32 = 0;
    while i < s.len()
        invariant
            start <= i <= s@.len(),
            start < s@.len(),
            digits == s@.skip(start as int),
            start == if s@.len() > 0 && s@[0] == '+' {
                1int
            } else {
                0int
            },
            start == 0 ==> digits == s@,
            value <= limit,
            hex_digits(digits.take(i - start)) == Some(value as nat),
        decreases s@.len() - i,
    {
        let ghost before = digits.take(i - start);
        let ghost after = digits.take(i - start + 1);
        assert(after.drop_last() =~= before);
        assert(after.last() == s@[i as int]);
        proof {
            lemma_hex_digits_prefix(digits, i - start + 1);
        }
        match hex_digit_value(s[i]) {
            None => {
                return None;
            },
            Some(d) => {
                if value as u64 * 16 + d as u64 > limit as u64 {
                    return None;
                }
                value = value * 16 + d;
            },
        }
        i = i + 1;
    }
    assert(digits.take(i - start) =~= digits);
    Some(value)
}

} // verus!
