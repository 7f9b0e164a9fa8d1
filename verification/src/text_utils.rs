//! What characters, font names and strings of a PDF tell about the text.

use crate::detector::{read_utf16_units, utf16_units};
use crate::text::{
    begins_with, chars_of, contains_text, encoded_units, has_text, lemma_utf16_round_trip,
    starts_with, text_from_utf16_lossy, utf16_text,
};
use vstd::prelude::*;

verus! {

/// Whether a character is a lowercase letter, by the Unicode property.
pub uninterp spec fn is_lower(c: char) -> bool;

/// Whether a character is an uppercase letter, by the Unicode property.
pub uninterp spec fn is_upper(c: char) -> bool;

/// Whether a character is a letter, by the Unicode property.
pub uninterp spec fn is_letter(c: char) -> bool;

/// Whether a character is a letter or a number, by the Unicode properties.
pub uninterp spec fn is_letter_or_number(c: char) -> bool;

/// `char::is_lowercase`: a fixed property of the character; of ASCII characters the letters from
/// `a` to `z` have it.
pub assume_specification[ char::is_lowercase ](c: char) -> (r: bool)
    ensures
        r == is_lower(c),
        c <= '\u{7F}' ==> r == ('a' <= c <= 'z'),
;

/// `char::is_uppercase`: a fixed property of the character; of ASCII characters the letters from
/// `A` to `Z` have it.
pub assume_specification[ char::is_uppercase ](c: char) -> (r: bool)
    ensures
        r == is_upper(c),
        c <= '\u{7F}' ==> r == ('A' <= c <= 'Z'),
;

/// `char::is_alphabetic`: a fixed property of the character; of ASCII characters the letters have
/// it.
pub assume_specification[ char::is_alphabetic ](c: char) -> (r: bool)
    ensures
        r == is_letter(c),
        c <= '\u{7F}' ==> r == ('a' <= c <= 'z' || 'A' <= c <= 'Z'),
;

/// `char::is_alphanumeric`: a fixed property of the character; of ASCII characters the letters and
/// digits have it.
pub assume_specification[ char::is_alphanumeric ](c: char) -> (r: bool)
    ensures
        r == is_letter_or_number(c),
        c <= '\u{7F}' ==> r == ('a' <= c <= 'z' || 'A' <= c <= 'Z' || '0' <= c <= '9'),
;

/// What `str::to_lowercase` makes of a text.
pub uninterp spec fn lowercase_text(s: Seq<char>) -> Seq<char>;

/// A character with an ASCII capital made small.
pub open spec fn lower_char(c: char) -> char {
    if 'A' <= c <= 'Z' {
        (c as u32 + 32) as char
    } else {
        c
    }
}

/// `str::to_lowercase`: the text in lower case. ASCII text has its capital letters replaced by the
/// small ones. Of other text nothing is said here but that the result depends on the text alone.
#[verifier::external_body]
pub(crate) fn to_lowercase(s: &str) -> (r: String)
    ensures
        r@ == lowercase_text(s@),
        (forall|i: int| 0 <= i < s@.len() ==> #[trigger] s@[i] <= '\u{7F}') ==> r@ == s@.map_values(
            |c: char| lower_char(c),
        ),
{
    s.to_lowercase()
}

/// Whether a character is Chinese, Japanese or Korean.
pub open spec fn is_cjk(c: char) -> bool {
    ||| '\u{1100}' <= c <= '\u{11FF}'
    ||| '\u{3000}' <= c <= '\u{30FF}'
    ||| '\u{3130}' <= c <= '\u{318F}'
    ||| '\u{4E00}' <= c <= '\u{9FFF}'
    ||| '\u{AC00}' <= c <= '\u{D7AF}'
    ||| '\u{F900}' <= c <= '\u{FAFF}'
    ||| '\u{FF00}' <= c <= '\u{FFEF}'
}

/// Whether a character is Chinese, Japanese or Korean: symbols and punctuation, Hiragana,
/// Katakana, ideographs, Hangul, and full-width forms. Such text has no spaces between words.
pub fn is_cjk_char(c: char) -> (r: bool)
    ensures
        r == is_cjk(c),
{
    ('\u{1100}' <= c && c <= '\u{11FF}') || ('\u{3000}' <= c && c <= '\u{30FF}') || ('\u{3130}' <= c
        && c <= '\u{318F}') || ('\u{4E00}' <= c && c <= '\u{9FFF}') || ('\u{AC00}' <= c && c
        <= '\u{D7AF}') || ('\u{F900}' <= c && c <= '\u{FAFF}') || ('\u{FF00}' <= c && c
        <= '\u{FFEF}')
}

/// Whether a character is written from right to left.
pub open spec fn is_rtl(c: char) -> bool {
    ||| '\u{0590}' <= c <= '\u{08FF}'
    ||| '\u{FB1D}' <= c <= '\u{FDFF}'
    ||| '\u{FE70}' <= c <= '\u{FEFF}'
}

/// Whether a character is written from right to left: Hebrew, Arabic, and the scripts that stand
/// beside them.
pub fn is_rtl_char(c: char) -> (r: bool)
    ensures
        r == is_rtl(c),
{
    ('\u{0590}' <= c && c <= '\u{08FF}') || ('\u{FB1D}' <= c && c <= '\u{FDFF}') || ('\u{FE70}' <= c
        && c <= '\u{FEFF}')
}

/// By how many the right-to-left characters of a text outnumber its other letters.
pub open spec fn rtl_balance(s: Seq<char>) -> int
    decreases s.len(),
{
    if s.len() == 0 {
        0
    } else {
        rtl_balance(s.drop_last()) + if is_rtl(s.last()) {
            1int
        } else if is_letter(s.last()) {
            -1int
        } else {
            0int
        }
    }
}

/// By how many the right-to-left characters of the first `n` texts outnumber the other letters.
pub open spec fn rtl_balance_of(texts: Seq<Seq<char>>, n: int) -> int
    decreases n,
{
    if n <= 0 {
        0
    } else {
        rtl_balance_of(texts, n - 1) + rtl_balance(texts[n - 1])
    }
}

/// Whether texts are written from right to left: the characters of such scripts outnumber the
/// other letters.
pub open spec fn are_rtl(texts: Seq<Seq<char>>) -> bool {
    rtl_balance_of(texts, texts.len() as int) > 0
}

/// Texts as they are handed in, as plain contents.
pub open spec fn slice_contents(texts: Seq<&str>) -> Seq<Seq<char>> {
    texts.map_values(|t: &str| t@)
}

/// Whether texts are written from right to left.
pub fn is_rtl_text(texts: &[&str]) -> (r: bool)
    ensures
        r == are_rtl(slice_contents(texts@)),
{
    let ghost all = slice_contents(texts@);
    let mut rtl: u128 = 0;
    let mut other: u128 = 0;
    let mut i: usize = 0;
    while i < texts.len()
        invariant
            i <= texts@.len(),
            all == slice_contents(texts@),
            rtl - other == rtl_balance_of(all, i as int),
            rtl <= i * usize::MAX,
            other <= i * usize::MAX,
        decreases texts@.len() - i,
    {
        let chars = chars_of(texts[i]);
        let n: usize = chars.len();
        let mut k: usize = 0;
        assert(all[i as int] == chars@);
        assert(i * usize::MAX + usize::MAX <= usize::MAX * usize::MAX) by (nonlinear_arith)
            requires
                i + 1 <= usize::MAX,
        ;
        let ghost balance = rtl_balance_of(all, i as int);
        while k < n
            invariant
                k <= n == chars@.len(),
                rtl - other == balance + rtl_balance(chars@.take(k as int)),
                rtl <= i * usize::MAX + k,
                other <= i * usize::MAX + k,
                i * usize::MAX + usize::MAX <= usize::MAX * usize::MAX,
            decreases n - k,
        {
            let c: char = chars[k];
            assert(chars@.take(k + 1).drop_last() =~= chars@.take(k as int));
            if is_rtl_char(c) {
                rtl = rtl + 1;
            } else if c.is_alphabetic() {
                other = other + 1;
            }
            k = k + 1;
        }
        assert(chars@.take(k as int) =~= chars@);
        assert(i * usize::MAX + usize::MAX == (i + 1) * usize::MAX) by (nonlinear_arith);
        i = i + 1;
    }
    rtl > other
}

/// Whether a font, by the name that a page gives it, is a composite font.
pub open spec fn is_cid_name(font: Seq<char>) -> bool {
    begins_with(font, "C2_"@) || begins_with(font, "C0_"@)
}

/// Whether a font, by the name that a page gives it, is a composite font. Such fonts show one word
/// at a time.
pub fn is_cid_font(font: &str) -> (r: bool)
    ensures
        r == is_cid_name(font@),
{
    let chars = chars_of(font);
    starts_with(chars.as_slice(), "C2_") || starts_with(chars.as_slice(), "C0_")
}

/// Whether a font name in lower case is that of a bold font.
pub open spec fn is_bold_name(lower: Seq<char>) -> bool {
    ||| has_text(lower, "bold"@)
    ||| has_text(lower, "-bd"@)
    ||| has_text(lower, "_bd"@)
    ||| has_text(lower, "black"@)
    ||| has_text(lower, "heavy"@)
    ||| has_text(lower, "demi"@)
    ||| has_text(lower, "semi"@)
    ||| has_text(lower, "medium"@) && !has_text(lower, "mediumitalic"@)
}

/// Whether a font name in lower case is that of a bold font.
pub fn is_bold_lower(lower: &str) -> (r: bool)
    ensures
        r == is_bold_name(lower@),
{
    let chars = chars_of(lower);
    let s = chars.as_slice();
    contains_text(s, "bold") || contains_text(s, "-bd") || contains_text(s, "_bd") || contains_text(
        s,
        "black",
    ) || contains_text(s, "heavy") || contains_text(s, "demi") || contains_text(s, "semi") || (
    contains_text(s, "medium") && !contains_text(
        s,
        "mediumitalic",
    ))
}

/// Whether a font is bold, by its name.
pub fn is_bold_font(font_name: &str) -> (r: bool)
    ensures
        r == is_bold_name(lowercase_text(font_name@)),
{
    is_bold_lower(to_lowercase(font_name).as_str())
}

/// Whether a font name in lower case is that of an italic font.
pub open spec fn is_italic_name(lower: Seq<char>) -> bool {
    ||| has_text(lower, "italic"@)
    ||| has_text(lower, "obl"@)
    ||| has_text(lower, "-it"@)
    ||| has_text(lower, "_it"@)
    ||| has_text(lower, "slant"@)
    ||| has_text(lower, "inclined"@)
    ||| has_text(lower, "kursiv"@)
}

/// Whether a font name in lower case is that of an italic font.
pub fn is_italic_lower(lower: &str) -> (r: bool)
    ensures
        r == is_italic_name(lower@),
{
    let chars = chars_of(lower);
    let s = chars.as_slice();
    contains_text(s, "italic") || contains_text(s, "obl") || contains_text(s, "-it")
        || contains_text(s, "_it") || contains_text(s, "slant") || contains_text(s, "inclined")
        || contains_text(s, "kursiv")
}

/// Whether a font is italic, by its name.
pub fn is_italic_font(font_name: &str) -> (r: bool)
    ensures
        r == is_italic_name(lowercase_text(font_name@)),
{
    is_italic_lower(to_lowercase(font_name).as_str())
}

/// Each byte as the character with its number.
pub open spec fn latin_text(bytes: Seq<u8>) -> Seq<char> {
    bytes.map_values(|b: u8| b as char)
}

/// Each byte as the character with its number.
pub fn decode_latin(bytes: &[u8]) -> (r: String)
    ensures
        r@ == latin_text(bytes@),
{
    let mut out: String = String::new();
    let mut i: usize = 0;
    while i < bytes.len()
        invariant
            i <= bytes@.len(),
            out@ == latin_text(bytes@).take(i as int),
        decreases bytes@.len() - i,
    {
        out.push(bytes[i] as char);
        i = i + 1;
        assert(out@ =~= latin_text(bytes@).take(i as int));
    }
    assert(out@ =~= latin_text(bytes@));
    out
}

/// The text of a string outside the page content: UTF-16 behind its byte order mark, else one
/// character for each byte.
pub open spec fn string_text(bytes: Seq<u8>) -> Seq<char> {
    if bytes.len() >= 2 && bytes[0] == 0xFE && bytes[1] == 0xFF {
        utf16_text(utf16_units(bytes, 2))
    } else {
        latin_text(bytes)
    }
}

/// Decodes a string outside the page content.
pub fn decode_text_string(bytes: &[u8]) -> (r: String)
    ensures
        r@ == string_text(bytes@),
{
    if bytes.len() >= 2 && bytes[0] == 0xFE && bytes[1] == 0xFF {
        let units = read_utf16_units(bytes, 2);
        text_from_utf16_lossy(&units)
    } else {
        decode_latin(bytes)
    }
}

/// The bytes of UTF-16 units, the high byte first.
pub open spec fn unit_bytes(units: Seq<u16>) -> Seq<u8> {
    Seq::new(
        2 * units.len(),
        |i: int|
            if i % 2 == 0 {
                (units[i / 2] / 256) as u8
            } else {
                (units[i / 2] % 256) as u8
            },
    )
}

/// A text in UTF-16 behind its byte order mark decodes to the text; bytes without the mark are one
/// character each, the one with the number of the byte.
pub proof fn lemma_strings_are_decoded(s: Seq<char>, bytes: Seq<u8>)
    ensures
        string_text(seq![0xFEu8, 0xFFu8] + unit_bytes(encoded_units(s))) == s,
        !(bytes.len() >= 2 && bytes[0] == 0xFE && bytes[1] == 0xFF) ==> string_text(bytes).len()
            == bytes.len() && forall|i: int|
            0 <= i < bytes.len() ==> #[trigger] string_text(bytes)[i] == bytes[i] as char,
{
    let units = encoded_units(s);
    let all = seq![0xFEu8, 0xFFu8] + unit_bytes(units);
    assert forall|k: int| 0 <= k < units.len() implies (all[2 + 2 * k] as int * 256 + all[2 + 2 * k
        + 1] as int) as u16 == units[k] by {
        assert(all[2 + 2 * k] == unit_bytes(units)[2 * k]);
        assert(all[2 + 2 * k + 1] == unit_bytes(units)[2 * k + 1]);
        assert((2 * k) / 2 == k && (2 * k + 1) / 2 == k);
    }
    assert(utf16_units(all, 2) =~= units);
    lemma_utf16_round_trip(s);
}

/// What a character becomes when ligatures are taken apart: control characters but for line breaks
/// and tabs vanish, and a ligature becomes its letters.
pub open spec fn taken_apart(c: char) -> Seq<char> {
    if c < ' ' && c != '\n' && c != '\r' && c != '\t' {
        seq![]
    } else if c == '\u{FB00}' {
        seq!['f', 'f']
    } else if c == '\u{FB01}' {
        seq!['f', 'i']
    } else if c == '\u{FB02}' {
        seq!['f', 'l']
    } else if c == '\u{FB03}' {
        seq!['f', 'f', 'i']
    } else if c == '\u{FB04}' {
        seq!['f', 'f', 'l']
    } else {
        seq![c]
    }
}

/// A text with its ligatures taken apart.
pub open spec fn without_ligatures(s: Seq<char>) -> Seq<char>
    decreases s.len(),
{
    if s.len() == 0 {
        seq![]
    } else {
        without_ligatures(s.drop_last()) + taken_apart(s.last())
    }
}

/// Takes the ligatures of a text apart, so that it can be searched, and drops control characters.
pub fn expand_ligatures(text: &str) -> (r: String)
    ensures
        r@ == without_ligatures(text@),
{
    let chars = chars_of(text);
    let mut out: String = String::new();
    let mut i: usize = 0;
    assert(chars@.take(0) =~= seq![]);
    while i < chars.len()
        invariant
            i <= chars@.len(),
            out@ == without_ligatures(chars@.take(i as int)),
        decreases chars@.len() - i,
    {
        let c: char = chars[i];
        let ghost before = out@;
        if c < ' ' && c != '\n' && c != '\r' && c != '\t' {
        } else if c == '\u{FB00}' {
            out.push('f');
            out.push('f');
        } else if c == '\u{FB01}' {
            out.push('f');
            out.push('i');
        } else if c == '\u{FB02}' {
            out.push('f');
            out.push('l');
        } else if c == '\u{FB03}' {
            out.push('f');
            out.push('f');
            out.push('i');
        } else if c == '\u{FB04}' {
            out.push('f');
            out.push('f');
            out.push('l');
        } else {
            out.push(c);
        }
        assert(out@ =~= before + taken_apart(c));
        i = i + 1;
        assert(chars@.take(i as int).drop_last() =~= chars@.take(i - 1));
    }
    assert(chars@.take(i as int) =~= chars@);
    out
}

/// Whether a character is left alone when ligatures are taken apart.
pub open spec fn is_plain(c: char) -> bool {
    taken_apart(c) == seq![c]
}

/// No ligature and no control character is left, and what is left stays as it is when ligatures
/// are taken apart again.
pub proof fn lemma_expansion_is_final(s: Seq<char>)
    ensures
        forall|i: int| 0 <= i < without_ligatures(s).len() ==> is_plain(#[trigger] without_ligatures(s)[i]),
        without_ligatures(without_ligatures(s)) == without_ligatures(s),
    decreases s.len(),
{
    if s.len() > 0 {
        lemma_expansion_is_final(s.drop_last());
        let head = without_ligatures(s.drop_last());
        let piece = taken_apart(s.last());
        assert forall|i: int| 0 <= i < piece.len() implies is_plain(#[trigger] piece[i]) by {}
        assert forall|i: int| 0 <= i < without_ligatures(s).len() implies is_plain(
            #[trigger] without_ligatures(s)[i],
        ) by {
            if i < head.len() {
                assert(without_ligatures(s)[i] == head[i]);
            } else {
                assert(without_ligatures(s)[i] == piece[i - head.len()]);
            }
        }
    }
    lemma_plain_stays(without_ligatures(s));
}

proof fn lemma_plain_stays(s: Seq<char>)
    requires
        forall|i: int| 0 <= i < s.len() ==> is_plain(#[trigger] s[i]),
    ensures
        without_ligatures(s) == s,
    decreases s.len(),
{
    if s.len() > 0 {
        lemma_plain_stays(s.drop_last());
        assert(is_plain(s[s.len() - 1]));
        assert(s.drop_last() + seq![s.last()] =~= s);
    } else {
        assert(s =~= seq![]);
    }
}

} // verus!
