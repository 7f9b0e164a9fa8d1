//! What is read of a CMap: laws on its sections, on its entries, and on the texts of codes.

use crate::text::{
    char_from, char_units, encoded_units, found_from, hex_digit, hex_digits, hex_number,
    is_scalar_value, is_space, lemma_char_units, lemma_found_from, lemma_space_end,
    lemma_trimmed_of_clean, scalar_text, space_end, stands_at, trimmed, utf8_size, utf8_width,
};
use crate::tounicode::{
    after_bfchar, after_bfchar_sections, after_bfrange, after_bfrange_sections, after_list, cmap_of,
    code_text, code_width, codes_of, codespace_from, codespace_width, group_end, group_number,
    groups_text, lemma_by_first_code, lemma_section_advances, lemma_token_advances, section_from,
    starts_below, token, unicode_text, CMapModel, ToUnicodeCMap,
};
use vstd::prelude::*;

verus! {

// ---------------------------------------------------------------------------------------------
// Texts made of sections
// ---------------------------------------------------------------------------------------------

/// What a section of a CMap lists.
#[derive(Clone, Copy, PartialEq, Eq, Structural)]
pub enum SectionKind {
    Chars,
    Ranges,
    Codespace,
}

/// A section of a CMap: what stands before it, what it lists, and what stands in it.
pub struct Section {
    pub lead: Seq<char>,
    pub kind: SectionKind,
    pub body: Seq<char>,
}

/// The words with which sections start.
pub open spec fn begin_of(kind: SectionKind) -> Seq<char> {
    match kind {
        SectionKind::Chars => "beginbfchar"@,
        SectionKind::Ranges => "beginbfrange"@,
        SectionKind::Codespace => "begincodespacerange"@,
    }
}

/// The words with which sections end.
pub open spec fn end_of(kind: SectionKind) -> Seq<char> {
    match kind {
        SectionKind::Chars => "endbfchar"@,
        SectionKind::Ranges => "endbfrange"@,
        SectionKind::Codespace => "endcodespacerange"@,
    }
}

/// The text of a section.
pub open spec fn section_text(s: Section) -> Seq<char> {
    s.lead + begin_of(s.kind) + s.body + end_of(s.kind)
}

/// The text of sections, one behind the other.
pub open spec fn sections_text(sections: Seq<Section>) -> Seq<char>
    decreases sections.len(),
{
    if sections.len() == 0 {
        seq![]
    } else {
        section_text(sections[0]) + sections_text(sections.skip(1))
    }
}

/// Whether a text holds neither of the letters `i` and `n`, so that no section starts or ends in it.
pub open spec fn is_plain(s: Seq<char>) -> bool {
    forall|k: int| 0 <= k < s.len() ==> #[trigger] s[k] != 'i' && s[k] != 'n'
}

/// Whether nothing in sections looks like the start or the end of a section.
pub open spec fn are_whole(sections: Seq<Section>) -> bool {
    forall|k: int|
        0 <= k < sections.len() ==> is_plain((#[trigger] sections[k]).lead) && is_plain(
            sections[k].body,
        )
}

/// Whether all sections are of a kind.
pub open spec fn are_all(sections: Seq<Section>, kind: SectionKind) -> bool {
    forall|k: int| 0 <= k < sections.len() ==> (#[trigger] sections[k]).kind == kind
}

/// What the sections of single codes say, one after the other.
pub open spec fn after_chars(sections: Seq<Section>, m: CMapModel) -> CMapModel
    decreases sections.len(),
{
    if sections.len() == 0 {
        m
    } else if sections[0].kind == SectionKind::Chars {
        after_chars(sections.skip(1), after_bfchar(sections[0].body, 0, m))
    } else {
        after_chars(sections.skip(1), m)
    }
}

/// What the sections of ranges say, one after the other.
pub open spec fn after_ranges(sections: Seq<Section>, m: CMapModel) -> CMapModel
    decreases sections.len(),
{
    if sections.len() == 0 {
        m
    } else if sections[0].kind == SectionKind::Ranges {
        after_ranges(sections.skip(1), after_bfrange(sections[0].body, 0, m))
    } else {
        after_ranges(sections.skip(1), m)
    }
}

/// In each of the words with which a section starts there is one `i`, at its fourth place; in those
/// with which one ends there is none, and an `n` at the second place.
proof fn lemma_words(kind: SectionKind)
    ensures
        begin_of(kind).len() >= 11,
        begin_of(kind)[3] == 'i',
        forall|k: int| 0 <= k < begin_of(kind).len() && k != 3 ==> #[trigger] begin_of(kind)[k] != 'i',
        end_of(kind).len() >= 9,
        end_of(kind)[0] == 'e',
        end_of(kind)[1] == 'n',
        forall|k: int| 0 <= k < end_of(kind).len() ==> #[trigger] end_of(kind)[k] != 'i',
        kind == SectionKind::Chars ==> begin_of(kind)[5] == 'b' && begin_of(kind)[7] == 'c',
        kind == SectionKind::Ranges ==> begin_of(kind)[5] == 'b' && begin_of(kind)[7] == 'r',
        kind == SectionKind::Codespace ==> begin_of(kind)[5] == 'c',
{
    reveal_strlit("beginbfchar");
    reveal_strlit("beginbfrange");
    reveal_strlit("begincodespacerange");
    reveal_strlit("endbfchar");
    reveal_strlit("endbfrange");
    reveal_strlit("endcodespacerange");
}

proof fn lemma_stands(s: Seq<char>, pattern: Seq<char>, p: int, j: int)
    requires
        stands_at(s, pattern, p),
        0 <= j < pattern.len(),
    ensures
        s[p + j] == pattern[j],
{
    assert(s.subrange(p, p + pattern.len())[j] == s[p + j]);
}

proof fn lemma_found_later(s: Seq<char>, pattern: Seq<char>, i: int, j: int)
    requires
        0 <= i <= j <= s.len(),
        forall|k: int| i <= k < j ==> !stands_at(s, pattern, k),
    ensures
        found_from(s, pattern, i) == found_from(s, pattern, j),
{
    lemma_found_from(s, pattern, i);
    lemma_found_from(s, pattern, j);
}

/// The section that comes next: where the text goes on with sections from a place on, and no `i` stands
/// between a position and this place.
proof fn lemma_next_section(
    pre: Seq<char>,
    sections: Seq<Section>,
    pos: int,
    kind: SectionKind,
)
    requires
        0 <= pos <= pre.len(),
        forall|k: int| pos <= k < pre.len() ==> #[trigger] pre[k] != 'i',
        are_whole(sections),
    ensures
        ({
            let text = pre + sections_text(sections);
            if sections.len() == 0 {
                section_from(text, begin_of(kind), end_of(kind), pos) is None
            } else {
                let s = sections[0];
                let start = pre.len() + s.lead.len() as int;
                let e = start + begin_of(s.kind).len() + s.body.len();
                let next = pre + section_text(s);
                &&& text == next + sections_text(sections.skip(1))
                &&& pos <= start + 4 <= e <= next.len()
                &&& forall|k: int| start + 4 <= k < next.len() ==> #[trigger] next[k] != 'i'
                &&& s.kind == kind ==> section_from(text, begin_of(kind), end_of(kind), pos) == Some(
                    (s.body, e),
                )
                &&& s.kind != kind ==> section_from(text, begin_of(kind), end_of(kind), pos)
                    == section_from(text, begin_of(kind), end_of(kind), start + 4)
            }
        }),
{
    let text = pre + sections_text(sections);
    let begin = begin_of(kind);
    let end = end_of(kind);
    lemma_words(kind);
    lemma_found_from(text, begin, pos);
    if sections.len() == 0 {
        match found_from(text, begin, pos) {
            Some(p) => {
                lemma_stands(text, begin, p, 3);
                assert(text[p + 3] == pre[p + 3]);
            },
            None => {},
        }
    } else {
        let s = sections[0];
        let next = pre + section_text(s);
        let start = pre.len() + s.lead.len() as int;
        let b = begin_of(s.kind);
        let e = start + b.len() + s.body.len();
        assert(is_plain(s.lead) && is_plain(s.body));
        lemma_words(s.kind);
        lemma_place(pre, s, sections_text(sections.skip(1)));
        assert(text == next + sections_text(sections.skip(1))) by {
            assert(text =~= next + sections_text(sections.skip(1)));
        }
        assert forall|k: int| start + 4 <= k < next.len() implies #[trigger] next[k] != 'i' by {
            assert(next[k] == text[k]);
        }
        assert forall|k: int| pos <= k < pre.len() implies #[trigger] text[k] != 'i' by {
            assert(text[k] == pre[k]);
        }
        lemma_next_found(text, pos, start, e, s, kind, pre.len() as int, next.len() as int);
    }
}

/// Where the parts of a section stand.
proof fn lemma_place(pre: Seq<char>, s: Section, rest: Seq<char>)
    requires
        is_plain(s.lead),
        is_plain(s.body),
    ensures
        ({
            let text = pre + section_text(s) + rest;
            let start = pre.len() + s.lead.len() as int;
            let from = start + begin_of(s.kind).len();
            let e = from + s.body.len();
            let stop = e + end_of(s.kind).len();
            &&& stop == (pre + section_text(s)).len() <= text.len()
            &&& text.subrange(start, from) == begin_of(s.kind)
            &&& text.subrange(from, e) == s.body
            &&& text.subrange(e, stop) == end_of(s.kind)
            &&& forall|k: int|
                pre.len() <= k < stop && k != start + 3 ==> #[trigger] text[k] != 'i'
            &&& forall|k: int| from <= k < e ==> #[trigger] text[k] != 'n'
        }),
{
    let own = section_text(s);
    let text = pre + own + rest;
    let start = pre.len() + s.lead.len() as int;
    let b = begin_of(s.kind);
    let d = end_of(s.kind);
    let from = start + b.len();
    let e = from + s.body.len();
    let stop = e + d.len();
    lemma_words(s.kind);
    assert(own.len() == s.lead.len() + b.len() + s.body.len() + d.len());
    assert(text.subrange(start, from) =~= b);
    assert(text.subrange(from, e) =~= s.body);
    assert(text.subrange(e, stop) =~= d);
    assert forall|k: int| pre.len() <= k < stop && k != start + 3 implies #[trigger] text[k]
        != 'i' by {
        if k < start {
            assert(text[k] == s.lead[k - pre.len()]);
        } else if k < from {
            assert(text[k] == b[k - start]);
        } else if k < e {
            assert(text[k] == s.body[k - from]);
        } else {
            assert(text[k] == d[k - e]);
        }
    }
    assert forall|k: int| from <= k < e implies #[trigger] text[k] != 'n' by {
        assert(text[k] == s.body[k - from]);
    }
}

/// The section that is found from a position on, given where its parts stand.
proof fn lemma_next_found(
    text: Seq<char>,
    pos: int,
    start: int,
    e: int,
    s: Section,
    kind: SectionKind,
    lead: int,
    stop: int,
)
    requires
        0 <= pos <= lead <= start,
        e == start + begin_of(s.kind).len() + s.body.len(),
        stop == e + end_of(s.kind).len(),
        stop <= text.len(),
        text.subrange(start, start + begin_of(s.kind).len()) == begin_of(s.kind),
        text.subrange(start + begin_of(s.kind).len(), e) == s.body,
        text.subrange(e, stop) == end_of(s.kind),
        forall|k: int| pos <= k < lead ==> #[trigger] text[k] != 'i',
        forall|k: int| lead <= k < stop && k != start + 3 ==> #[trigger] text[k] != 'i',
        forall|k: int|
            start + begin_of(s.kind).len() <= k < e ==> #[trigger] text[k] != 'n',
    ensures
        s.kind == kind ==> section_from(text, begin_of(kind), end_of(kind), pos) == Some((s.body, e)),
        s.kind != kind ==> section_from(text, begin_of(kind), end_of(kind), pos) == section_from(
            text,
            begin_of(kind),
            end_of(kind),
            start + 4,
        ),
{
    let begin = begin_of(kind);
    let end = end_of(kind);
    let b = begin_of(s.kind);
    lemma_words(kind);
    lemma_words(s.kind);
    assert forall|k: int| pos <= k < start + 4 && k != start implies !stands_at(text, begin, k) by {
        if stands_at(text, begin, k) {
            lemma_stands(text, begin, k, 3);
            assert(text[k + 3] == 'i');
        }
    }
    lemma_found_from(text, begin, pos);
    if s.kind == kind {
        assert(stands_at(text, begin, start));
        assert(found_from(text, begin, pos) == Some(start));
        let from = start + b.len();
        lemma_found_from(text, end, from);
        assert(stands_at(text, end, e));
        assert forall|k: int| from <= k < e implies !stands_at(text, end, k) by {
            if stands_at(text, end, k) {
                lemma_stands(text, end, k, 1);
                assert(text.subrange(e, stop)[0] == text[e]);
                assert(text[k + 1] == 'n');
            }
        }
        assert(found_from(text, end, from) == Some(e));
    } else {
        if stands_at(text, begin, start) {
            lemma_stands(text, begin, start, 5);
            lemma_stands(text, begin, start, 7);
            assert(text.subrange(start, start + b.len())[5] == text[start + 5]);
            assert(text.subrange(start, start + b.len())[7] == text[start + 7]);
        }
        lemma_found_later(text, begin, pos, start + 4);
    }
}

proof fn lemma_char_sections(pre: Seq<char>, sections: Seq<Section>, pos: int, m: CMapModel)
    requires
        0 <= pos <= pre.len(),
        forall|k: int| pos <= k < pre.len() ==> #[trigger] pre[k] != 'i',
        are_whole(sections),
    ensures
        after_bfchar_sections(pre + sections_text(sections), pos, m) == after_chars(sections, m),
    decreases sections.len(),
{
    let text = pre + sections_text(sections);
    let kind = SectionKind::Chars;
    lemma_next_section(pre, sections, pos, kind);
    reveal_strlit("beginbfchar");
    lemma_section_advances(text, "beginbfchar"@, "endbfchar"@, pos);
    if sections.len() > 0 {
        let s = sections[0];
        let start = pre.len() + s.lead.len() as int;
        let e = start + begin_of(s.kind).len() + s.body.len();
        let next = pre + section_text(s);
        let rest = sections.skip(1);
        assert forall|k: int| 0 <= k < rest.len() implies is_plain((#[trigger] rest[k]).lead)
            && is_plain(rest[k].body) by {
            assert(rest[k] == sections[k + 1]);
        }
        lemma_section_advances(text, "beginbfchar"@, "endbfchar"@, start + 4);
        if s.kind == kind {
            lemma_char_sections(next, rest, e, after_bfchar(s.body, 0, m));
        } else {
            lemma_char_sections(next, rest, start + 4, m);
        }
    }
}

proof fn lemma_range_sections(pre: Seq<char>, sections: Seq<Section>, pos: int, m: CMapModel)
    requires
        0 <= pos <= pre.len(),
        forall|k: int| pos <= k < pre.len() ==> #[trigger] pre[k] != 'i',
        are_whole(sections),
    ensures
        after_bfrange_sections(pre + sections_text(sections), pos, m) == after_ranges(sections, m),
    decreases sections.len(),
{
    let text = pre + sections_text(sections);
    let kind = SectionKind::Ranges;
    lemma_next_section(pre, sections, pos, kind);
    reveal_strlit("beginbfrange");
    lemma_section_advances(text, "beginbfrange"@, "endbfrange"@, pos);
    if sections.len() > 0 {
        let s = sections[0];
        let start = pre.len() + s.lead.len() as int;
        let e = start + begin_of(s.kind).len() + s.body.len();
        let next = pre + section_text(s);
        let rest = sections.skip(1);
        assert forall|k: int| 0 <= k < rest.len() implies is_plain((#[trigger] rest[k]).lead)
            && is_plain(rest[k].body) by {
            assert(rest[k] == sections[k + 1]);
        }
        lemma_section_advances(text, "beginbfrange"@, "endbfrange"@, start + 4);
        if s.kind == kind {
            lemma_range_sections(next, rest, e, after_bfrange(s.body, 0, m));
        } else {
            lemma_range_sections(next, rest, start + 4, m);
        }
    }
}

/// The codes that a text maps one by one; none where it maps nothing.
pub open spec fn mapped_codes(text: Seq<char>) -> Map<u16, Seq<char>> {
    match cmap_of(text) {
        Some((chars, ranges, width)) => chars,
        None => Map::empty(),
    }
}

proof fn lemma_chars_alone(s: Seq<char>, i: int, m: CMapModel)
    requires
        0 <= i <= s.len(),
    ensures
        after_bfchar(s, i, m).chars == m.chars.union_prefer_right(
            after_bfchar(s, i, CMapModel::empty()).chars,
        ),
        after_bfchar(s, i, m).ranges == m.ranges,
    decreases s.len() - i,
{
    let empty = CMapModel::empty();
    lemma_token_advances(s, i);
    match token(s, i) {
        None => {
            assert(m.chars.union_prefer_right(Map::empty()) =~= m.chars);
        },
        Some((source, j)) => {
            lemma_token_advances(s, j);
            match token(s, j) {
                None => {
                    assert(m.chars.union_prefer_right(Map::empty()) =~= m.chars);
                },
                Some((target, k)) => {
                    let a = m.noted(source).mapped(source, target);
                    let b = empty.noted(source).mapped(source, target);
                    lemma_chars_alone(s, k, a);
                    lemma_chars_alone(s, k, b);
                    let own = after_bfchar(s, k, empty).chars;
                    assert(a.chars.union_prefer_right(own) =~= m.chars.union_prefer_right(
                        b.chars.union_prefer_right(own),
                    ));
                },
            }
        },
    }
}

proof fn lemma_char_tables(sections: Seq<Section>, m: CMapModel)
    ensures
        after_chars(sections, m).chars == m.chars.union_prefer_right(
            after_chars(sections, CMapModel::empty()).chars,
        ),
        after_chars(sections, m).ranges == m.ranges,
    decreases sections.len(),
{
    let empty = CMapModel::empty();
    if sections.len() == 0 {
        assert(m.chars.union_prefer_right(Map::empty()) =~= m.chars);
    } else if sections[0].kind == SectionKind::Chars {
        let body = sections[0].body;
        let rest = sections.skip(1);
        lemma_chars_alone(body, 0, m);
        lemma_char_tables(rest, after_bfchar(body, 0, m));
        lemma_char_tables(rest, after_bfchar(body, 0, empty));
        let own = after_bfchar(body, 0, empty).chars;
        let later = after_chars(rest, empty).chars;
        assert(m.chars.union_prefer_right(own).union_prefer_right(later)
            =~= m.chars.union_prefer_right(own.union_prefer_right(later)));
    } else {
        lemma_char_tables(sections.skip(1), m);
    }
}

proof fn lemma_after_chars_add(a: Seq<Section>, b: Seq<Section>, m: CMapModel)
    ensures
        after_chars(a + b, m) == after_chars(b, after_chars(a, m)),
    decreases a.len(),
{
    if a.len() == 0 {
        assert(a + b =~= b);
    } else {
        assert((a + b).skip(1) =~= a.skip(1) + b);
        assert((a + b)[0] == a[0]);
        if a[0].kind == SectionKind::Chars {
            lemma_after_chars_add(a.skip(1), b, after_bfchar(a[0].body, 0, m));
        } else {
            lemma_after_chars_add(a.skip(1), b, m);
        }
    }
}

proof fn lemma_no_ranges(sections: Seq<Section>, m: CMapModel)
    requires
        are_all(sections, SectionKind::Chars),
    ensures
        after_ranges(sections, m) == m,
    decreases sections.len(),
{
    if sections.len() > 0 {
        assert(sections[0].kind == SectionKind::Chars);
        let rest = sections.skip(1);
        assert forall|k: int| 0 <= k < rest.len() implies (#[trigger] rest[k]).kind
            == SectionKind::Chars by {
            assert(rest[k] == sections[k + 1]);
        }
        lemma_no_ranges(rest, m);
    }
}

/// What a text made of sections of single codes says.
proof fn lemma_table_of_chars(sections: Seq<Section>)
    requires
        are_whole(sections),
        are_all(sections, SectionKind::Chars),
    ensures
        mapped_codes(sections_text(sections)) == after_chars(sections, CMapModel::empty()).chars,
        cmap_of(sections_text(sections)) matches Some((chars, ranges, width)) ==> ranges.len() == 0,
{
    let empty = CMapModel::empty();
    let text = sections_text(sections);
    let none: Seq<char> = seq![];
    assert(none + text =~= text);
    lemma_char_sections(none, sections, 0, empty);
    let m = after_chars(sections, empty);
    lemma_range_sections(none, sections, 0, m);
    lemma_no_ranges(sections, m);
    lemma_char_tables(sections, empty);
    lemma_by_first_code(m.ranges);
    if m.chars.is_empty() {
        assert(m.chars =~= Map::empty());
    }
}

/// Every section counts. For texts made of whole sections of single codes, a code that the second text
/// maps is mapped as the second text maps it by the two texts one behind the other, and a code that
/// only the first text maps as the first text maps it; no other code is mapped.
pub proof fn lemma_every_section_counts(a: Seq<Section>, b: Seq<Section>, code: u16)
    requires
        are_whole(a),
        are_whole(b),
        are_all(a, SectionKind::Chars),
        are_all(b, SectionKind::Chars),
    ensures
        sections_text(a + b) == sections_text(a) + sections_text(b),
        ({
            let first = mapped_codes(sections_text(a));
            let second = mapped_codes(sections_text(b));
            let both = mapped_codes(sections_text(a + b));
            &&& second.dom().contains(code) ==> both.dom().contains(code) && both[code]
                == second[code]
            &&& first.dom().contains(code) && !second.dom().contains(code) ==> both.dom().contains(
                code,
            ) && both[code] == first[code]
            &&& both.dom().contains(code) ==> first.dom().contains(code) || second.dom().contains(
                code,
            )
        }),
{
    let all = a + b;
    assert forall|k: int| 0 <= k < all.len() implies is_plain((#[trigger] all[k]).lead) && is_plain(
        all[k].body,
    ) && all[k].kind == SectionKind::Chars by {
        if k < a.len() {
            assert(all[k] == a[k]);
        } else {
            assert(all[k] == b[k - a.len()]);
        }
    }
    lemma_sections_text_add(a, b);
    lemma_table_of_chars(a);
    lemma_table_of_chars(b);
    lemma_table_of_chars(all);
    let empty = CMapModel::empty();
    lemma_after_chars_add(a, b, empty);
    lemma_char_tables(b, after_chars(a, empty));
}

proof fn lemma_sections_text_add(a: Seq<Section>, b: Seq<Section>)
    ensures
        sections_text(a + b) == sections_text(a) + sections_text(b),
    decreases a.len(),
{
    if a.len() == 0 {
        assert(a + b =~= b);
        assert(sections_text(a) + sections_text(b) =~= sections_text(b));
    } else {
        lemma_sections_text_add(a.skip(1), b);
        assert((a + b).skip(1) =~= a.skip(1) + b);
        assert((a + b)[0] == a[0]);
        assert(sections_text(a + b) =~= sections_text(a) + sections_text(b));
    }
}

// ---------------------------------------------------------------------------------------------
// Entries
// ---------------------------------------------------------------------------------------------

/// A hexadecimal digit as it is written.
pub open spec fn digit_char(d: int) -> char {
    if d < 10 {
        (48 + d) as char
    } else {
        (55 + d) as char
    }
}

/// A number in four hexadecimal digits.
#[verifier::opaque]
pub open spec fn four_digits(v: int) -> Seq<char> {
    seq![
        digit_char(v / 4096 % 16),
        digit_char(v / 256 % 16),
        digit_char(v / 16 % 16),
        digit_char(v % 16),
    ]
}

/// UTF-16 units in hexadecimal digits.
pub open spec fn unit_digits(units: Seq<u16>) -> Seq<char>
    decreases units.len(),
{
    if units.len() == 0 {
        seq![]
    } else {
        four_digits(units[0] as int) + unit_digits(units.skip(1))
    }
}

proof fn lemma_digit_char(d: int)
    requires
        0 <= d < 16,
    ensures
        hex_digit(digit_char(d)) == Some(d as nat),
        !is_space(digit_char(d)),
        utf8_width(digit_char(d)) == 1,
        digit_char(d) != '>',
        digit_char(d) != '<',
        digit_char(d) != '+',
        digit_char(d) != 'i',
        digit_char(d) != 'n',
{
    if d < 10 {
        lemma_small_char((48 + d) as u8);
    } else {
        lemma_small_char((55 + d) as u8);
    }
}

proof fn lemma_small_char(b: u8)
    ensures
        (b as char) as u32 == b as u32,
{
}

proof fn lemma_four_digits(v: int)
    requires
        0 <= v <= 0xFFFF,
    ensures
        four_digits(v).len() == 4,
        forall|k: int|
            0 <= k < 4 ==> !is_space(#[trigger] four_digits(v)[k]) && four_digits(v)[k] != '>'
                && four_digits(v)[k] != '<' && four_digits(v)[k] != 'i' && four_digits(v)[k] != 'n'
                && four_digits(v)[k] != '+' && utf8_width(four_digits(v)[k]) == 1 && hex_digit(
                four_digits(v)[k],
            ) is Some,
        hex_digits(four_digits(v)) == Some(v as nat),
        trimmed(four_digits(v)) == four_digits(v),
        utf8_size(four_digits(v)) == 4,
{
    reveal(four_digits);
    let a = v / 4096 % 16;
    let b = v / 256 % 16;
    let c = v / 16 % 16;
    let d = v % 16;
    lemma_digit_char(a);
    lemma_digit_char(b);
    lemma_digit_char(c);
    lemma_digit_char(d);
    let s = four_digits(v);
    assert(((a * 16 + b) * 16 + c) * 16 + d == v);
    reveal_with_fuel(hex_digits, 5);
    reveal_with_fuel(utf8_size, 5);
    assert(s.drop_last() =~= seq![digit_char(a), digit_char(b), digit_char(c)]);
    assert(s.drop_last().drop_last() =~= seq![digit_char(a), digit_char(b)]);
    assert(s.drop_last().drop_last().drop_last() =~= seq![digit_char(a)]);
    assert(s.drop_last().drop_last().drop_last().drop_last() =~= seq![]);
    lemma_trimmed_of_clean(s);
}

proof fn lemma_group(pre: Seq<char>, v: int, rest: Seq<char>)
    requires
        0 <= v <= 0xFFFF,
    ensures
        ({
            let s = pre + four_digits(v) + rest;
            &&& group_end(s, pre.len() as int, 4) == Some(pre.len() as int + 4)
            &&& group_number(s, pre.len() as int) == Some((v as nat, pre.len() as int + 4))
            &&& pre.len() + 4 <= s.len()
        }),
{
    let s = pre + four_digits(v) + rest;
    let i = pre.len() as int;
    lemma_four_digits(v);
    let f = four_digits(v);
    assert(s[i] == f[0] && s[i + 1] == f[1] && s[i + 2] == f[2] && s[i + 3] == f[3]);
    reveal_with_fuel(group_end, 5);
    assert(s.subrange(i, i + 4) =~= f);
}

proof fn lemma_single_group(pre: Seq<char>, c: char, later: Seq<char>)
    requires
        (c as int) < 0x10000,
    ensures
        ({
            let s = pre + four_digits(c as int) + later;
            groups_text(s, pre.len() as int) == seq![c] + groups_text(s, pre.len() as int + 4)
        }),
{
    let v = c as int;
    let i = pre.len() as int;
    let s = pre + four_digits(v) + later;
    lemma_char_units(c);
    lemma_group(pre, v, later);
    assert(scalar_text(v) =~= seq![c]);
    assert(!(0xD800 <= v <= 0xDBFF));
}

proof fn lemma_pair_group(pre: Seq<char>, c: char, later: Seq<char>)
    requires
        (c as int) >= 0x10000,
    ensures
        ({
            let high = char_units(c)[0] as int;
            let low = char_units(c)[1] as int;
            let s = pre + four_digits(high) + (four_digits(low) + later);
            groups_text(s, pre.len() as int) == seq![c] + groups_text(s, pre.len() as int + 8)
        }),
{
    let high = char_units(c)[0] as int;
    let low = char_units(c)[1] as int;
    let s = pre + four_digits(high) + (four_digits(low) + later);
    lemma_char_units(c);
    lemma_group(pre, high, four_digits(low) + later);
    let middle = pre + four_digits(high);
    lemma_four_digits(high);
    lemma_four_digits(low);
    assert(s =~= middle + four_digits(low) + later);
    lemma_group(middle, low, later);
}

proof fn lemma_text_digits(text: Seq<char>)
    requires
        text.len() > 0,
    ensures
        ({
            let c = text[0];
            let later = unit_digits(encoded_units(text.skip(1)));
            let units = char_units(c);
            unit_digits(encoded_units(text)) == if (c as int) < 0x10000 {
                four_digits(c as int) + later
            } else {
                four_digits(units[0] as int) + (four_digits(units[1] as int) + later)
            }
        }),
{
    let c = text[0];
    lemma_char_units(c);
    let units = char_units(c);
    let tail = encoded_units(text.skip(1));
    let all = units + tail;
    assert(encoded_units(text) == all);
    assert(all[0] == units[0]);
    if (c as int) < 0x10000 {
        assert(all.skip(1) =~= tail);
    } else {
        assert(all.skip(1)[0] == units[1]);
        assert(all.skip(1).skip(1) =~= tail);
        assert(unit_digits(all.skip(1)) == four_digits(units[1] as int) + unit_digits(tail));
    }
}

proof fn lemma_groups(pre: Seq<char>, text: Seq<char>)
    ensures
        groups_text(pre + unit_digits(encoded_units(text)), pre.len() as int) == text,
    decreases text.len(),
{
    let digits = unit_digits(encoded_units(text));
    let s = pre + digits;
    let i = pre.len() as int;
    if text.len() == 0 {
        assert(s =~= pre);
        assert(groups_text(s, i) =~= text);
    } else {
        let c = text[0];
        let rest = text.skip(1);
        let later = unit_digits(encoded_units(rest));
        lemma_text_digits(text);
        lemma_char_units(c);
        assert(seq![c] + rest =~= text);
        if (c as int) < 0x10000 {
            let f = four_digits(c as int);
            lemma_four_digits(c as int);
            assert(pre + (f + later) =~= pre + f + later);
            lemma_single_group(pre, c, later);
            lemma_groups(pre + f, rest);
        } else {
            let f = four_digits(char_units(c)[0] as int);
            let g = four_digits(char_units(c)[1] as int);
            lemma_four_digits(char_units(c)[0] as int);
            lemma_four_digits(char_units(c)[1] as int);
            assert(pre + (f + (g + later)) =~= pre + f + (g + later));
            assert(pre + f + (g + later) =~= pre + f + g + later);
            lemma_pair_group(pre, c, later);
            lemma_groups(pre + f + g, rest);
        }
    }
}

proof fn lemma_unit_digits(units: Seq<u16>)
    ensures
        unit_digits(units).len() == 4 * units.len(),
        forall|k: int|
            0 <= k < unit_digits(units).len() ==> !is_space(#[trigger] unit_digits(units)[k])
                && unit_digits(units)[k] != '>' && unit_digits(units)[k] != 'i' && unit_digits(
                units,
            )[k] != 'n',
    decreases units.len(),
{
    if units.len() > 0 {
        lemma_unit_digits(units.skip(1));
        lemma_four_digits(units[0] as int);
        let f = four_digits(units[0] as int);
        let later = unit_digits(units.skip(1));
        assert forall|k: int| 0 <= k < unit_digits(units).len() implies !is_space(
            #[trigger] unit_digits(units)[k],
        ) && unit_digits(units)[k] != '>' && unit_digits(units)[k] != 'i' && unit_digits(units)[k]
            != 'n' by {
            if k < 4 {
                assert(unit_digits(units)[k] == f[k]);
            } else {
                assert(unit_digits(units)[k] == later[k - 4]);
            }
        }
    }
}

/// A text that is written in hexadecimal digits, by its UTF-16 units, is read back.
pub proof fn lemma_targets_are_read_back(text: Seq<char>)
    requires
        text.len() > 0,
    ensures
        unicode_text(unit_digits(encoded_units(text))) == Some(text),
{
    let s = unit_digits(encoded_units(text));
    lemma_unit_digits(encoded_units(text));
    lemma_char_units(text[0]);
    assert(encoded_units(text).len() > 0);
    lemma_trimmed_of_clean(s);
    let none: Seq<char> = seq![];
    assert(none + s =~= s);
    lemma_groups(none, text);
}

/// A code and its text as an entry of a section: `<0041> <0066006C>` on a line of its own.
pub open spec fn entry_text(code: u16, text: Seq<char>) -> Seq<char> {
    seq!['\n', '<'] + four_digits(code as int) + seq!['>', ' ', '<'] + unit_digits(
        encoded_units(text),
    ) + seq!['>']
}

/// Entries, one behind the other.
pub open spec fn entries_text(entries: Seq<(u16, Seq<char>)>) -> Seq<char>
    decreases entries.len(),
{
    if entries.len() == 0 {
        seq![]
    } else {
        entry_text(entries[0].0, entries[0].1) + entries_text(entries.skip(1))
    }
}

/// The codes that entries map, the last one counting.
pub open spec fn entered(entries: Seq<(u16, Seq<char>)>, chars: Map<u16, Seq<char>>) -> Map<
    u16,
    Seq<char>,
>
    decreases entries.len(),
{
    if entries.len() == 0 {
        chars
    } else {
        entered(entries.skip(1), chars.insert(entries[0].0, entries[0].1))
    }
}

/// Whether each entry has a text.
pub open spec fn have_texts(entries: Seq<(u16, Seq<char>)>) -> bool {
    forall|k: int| 0 <= k < entries.len() ==> (#[trigger] entries[k]).1.len() > 0
}

proof fn lemma_char_found(s: Seq<char>, c: char, i: int, e: int)
    requires
        0 <= i <= e < s.len(),
        s[e] == c,
        forall|k: int| i <= k < e ==> s[k] != c,
    ensures
        char_from(s, c, i) == e,
    decreases e - i,
{
    if i < e {
        lemma_char_found(s, c, i + 1, e);
    }
}

/// A token behind one white space.
proof fn lemma_token(s: Seq<char>, i: int, t: Seq<char>)
    requires
        0 <= i,
        i + 2 + t.len() < s.len(),
        is_space(s[i]),
        s[i + 1] == '<',
        forall|k: int| 0 <= k < t.len() ==> #[trigger] s[i + 2 + k] == t[k] && t[k] != '>',
        s[i + 2 + t.len()] == '>',
    ensures
        token(s, i) == Some((t, i + 3 + t.len())),
{
    reveal_with_fuel(space_end, 3);
    assert(!is_space('<'));
    assert(space_end(s, i) == i + 1);
    let e = i + 2 + t.len();
    assert forall|k: int| i + 2 <= k < e implies s[k] != '>' by {
        assert(s[i + 2 + (k - i - 2)] == t[k - i - 2]);
    }
    lemma_char_found(s, '>', i + 2, e);
    let part = s.subrange(i + 2, e);
    assert forall|k: int| 0 <= k < t.len() implies part[k] == t[k] by {
        assert(s[i + 2 + k] == t[k]);
    }
    assert(part =~= t);
}

proof fn lemma_entry(pre: Seq<char>, code: u16, text: Seq<char>, rest: Seq<char>, m: CMapModel)
    requires
        text.len() > 0,
    ensures
        ({
            let s = pre + entry_text(code, text) + rest;
            let next = pre.len() + entry_text(code, text).len() as int;
            &&& next <= s.len()
            &&& exists|n: CMapModel| #[trigger]
                after_bfchar(s, next, n) == after_bfchar(s, pre.len() as int, m) && n.chars
                    == m.chars.insert(code, text) && n.ranges == m.ranges && n.narrow
                    == m.narrow.push(false)
        }),
{
    let s = pre + entry_text(code, text) + rest;
    let i = pre.len() as int;
    let f = four_digits(code as int);
    let u = unit_digits(encoded_units(text));
    let own = entry_text(code, text);
    lemma_four_digits(code as int);
    lemma_unit_digits(encoded_units(text));
    lemma_targets_are_read_back(text);
    assert(own.len() == 10 + u.len());
    assert forall|k: int| 0 <= k < own.len() implies #[trigger] s[i + k] == own[k] by {}
    assert(s[i + 0] == '\n' && s[i + 1] == '<');
    assert forall|k: int| 0 <= k < f.len() implies #[trigger] s[i + 2 + k] == f[k] && f[k] != '>' by {
        assert(s[i + (2 + k)] == own[2 + k]);
    }
    assert(s[i + 6] == '>' && s[i + 7] == ' ' && s[i + 8] == '<');
    lemma_token(s, i, f);
    let j = i + 7;
    assert forall|k: int| 0 <= k < u.len() implies #[trigger] s[j + 2 + k] == u[k] && u[k] != '>' by {
        assert(s[i + (9 + k)] == own[9 + k]);
    }
    assert(s[i + (9 + u.len())] == own[9 + u.len() as int]);
    lemma_token(s, j, u);
    let next = i + own.len() as int;
    let n = m.noted(f).mapped(f, u);
    lemma_token_advances(s, i);
    lemma_token_advances(s, j);
    assert(f[0] != '+');
    assert(hex_number(trimmed(f), 0xFFFF) == Some(code as nat));
    assert(n.chars =~= m.chars.insert(code, text));
    assert(after_bfchar(s, next, n) == after_bfchar(s, i, m));
}

proof fn lemma_entries(pre: Seq<char>, entries: Seq<(u16, Seq<char>)>, m: CMapModel)
    requires
        have_texts(entries),
    ensures
        ({
            let s = pre + entries_text(entries);
            let r = after_bfchar(s, pre.len() as int, m);
            &&& r.chars == entered(entries, m.chars)
            &&& r.ranges == m.ranges
            &&& r.narrow.len() == m.narrow.len() + entries.len()
            &&& entries.len() > 0 ==> exists|k: int| 0 <= k < r.narrow.len() && !(#[trigger] r.narrow[k])
            &&& (exists|k: int| 0 <= k < m.narrow.len() && !(#[trigger] m.narrow[k])) ==> exists|
                k: int,
            | 0 <= k < r.narrow.len() && !(#[trigger] r.narrow[k])
        }),
    decreases entries.len(),
{
    let s = pre + entries_text(entries);
    let i = pre.len() as int;
    if entries.len() == 0 {
        assert(s =~= pre);
        lemma_space_end(s, i);
        assert(token(s, i) is None);
    } else {
        let (code, text) = entries[0];
        let rest = entries.skip(1);
        let own = entry_text(code, text);
        assert(s =~= pre + own + entries_text(rest));
        lemma_entry(pre, code, text, entries_text(rest), m);
        let next = i + own.len() as int;
        let n = choose|n: CMapModel| #[trigger]
            after_bfchar(s, next, n) == after_bfchar(s, i, m) && n.chars == m.chars.insert(
                code,
                text,
            ) && n.ranges == m.ranges && n.narrow == m.narrow.push(false);
        let more = pre + own;
        assert(s =~= more + entries_text(rest));
        assert forall|k: int| 0 <= k < rest.len() implies (#[trigger] rest[k]).1.len() > 0 by {
            assert(rest[k] == entries[k + 1]);
        }
        lemma_entries(more, rest, n);
        assert(!n.narrow[m.narrow.len() as int]);
    }
}

proof fn lemma_entries_are_plain(entries: Seq<(u16, Seq<char>)>)
    ensures
        is_plain(entries_text(entries)),
    decreases entries.len(),
{
    if entries.len() > 0 {
        let (code, text) = entries[0];
        let own = entry_text(code, text);
        let f = four_digits(code as int);
        let u = unit_digits(encoded_units(text));
        lemma_entries_are_plain(entries.skip(1));
        lemma_four_digits(code as int);
        lemma_unit_digits(encoded_units(text));
        let later = entries_text(entries.skip(1));
        let all = entries_text(entries);
        assert forall|k: int| 0 <= k < all.len() implies #[trigger] all[k] != 'i' && all[k] != 'n' by {
            if k < own.len() {
                assert(all[k] == own[k]);
                if 2 <= k < 6 {
                    assert(own[k] == f[k - 2]);
                } else if 9 <= k < 9 + u.len() {
                    assert(own[k] == u[k - 9]);
                }
            } else {
                assert(all[k] == later[k - own.len()]);
            }
        }
    }
}

/// Lists of entries as sections of single codes.
pub open spec fn as_sections(lists: Seq<Seq<(u16, Seq<char>)>>) -> Seq<Section> {
    lists.map_values(
        |entries: Seq<(u16, Seq<char>)>|
            Section {
                lead: seq!['\n'],
                kind: SectionKind::Chars,
                body: entries_text(entries).push('\n'),
            },
    )
}

/// The codes that lists of entries map, the last one counting.
pub open spec fn all_entered(lists: Seq<Seq<(u16, Seq<char>)>>, chars: Map<u16, Seq<char>>) -> Map<
    u16,
    Seq<char>,
>
    decreases lists.len(),
{
    if lists.len() == 0 {
        chars
    } else {
        all_entered(lists.skip(1), entered(lists[0], chars))
    }
}

proof fn lemma_entries_in_a_line(entries: Seq<(u16, Seq<char>)>, m: CMapModel)
    requires
        have_texts(entries),
    ensures
        after_bfchar(entries_text(entries).push('\n'), 0, m).chars == entered(entries, m.chars),
{
    let none: Seq<char> = seq![];
    lemma_entries_then(none, entries, seq!['\n'], m);
    assert(none + entries_text(entries) + seq!['\n'] =~= entries_text(entries).push('\n'));
}

proof fn lemma_entries_then(
    pre: Seq<char>,
    entries: Seq<(u16, Seq<char>)>,
    tail: Seq<char>,
    m: CMapModel,
)
    requires
        have_texts(entries),
        forall|k: int| 0 <= k < tail.len() ==> is_space(#[trigger] tail[k]),
    ensures
        after_bfchar(pre + entries_text(entries) + tail, pre.len() as int, m).chars == entered(
            entries,
            m.chars,
        ),
    decreases entries.len(),
{
    let s = pre + entries_text(entries) + tail;
    let i = pre.len() as int;
    if entries.len() == 0 {
        assert(s =~= pre + tail);
        lemma_space_end(s, i);
        let a = space_end(s, i);
        if a < s.len() {
            assert(s[a] == tail[a - i]);
        }
        assert(token(s, i) is None);
    } else {
        let (code, text) = entries[0];
        let rest = entries.skip(1);
        let own = entry_text(code, text);
        let later = entries_text(rest) + tail;
        assert(s =~= pre + own + later);
        lemma_entry(pre, code, text, later, m);
        let next = i + own.len() as int;
        let n = choose|n: CMapModel| #[trigger]
            after_bfchar(s, next, n) == after_bfchar(s, i, m) && n.chars == m.chars.insert(
                code,
                text,
            ) && n.ranges == m.ranges && n.narrow == m.narrow.push(false);
        let more = pre + own;
        assert(s =~= more + entries_text(rest) + tail);
        assert forall|k: int| 0 <= k < rest.len() implies (#[trigger] rest[k]).1.len() > 0 by {
            assert(rest[k] == entries[k + 1]);
        }
        lemma_entries_then(more, rest, tail, n);
    }
}

/// What is written is read: a CMap that is written as sections of single codes, each with any number of
/// entries, maps exactly the codes of all entries of all sections, each to the text of its last entry.
pub proof fn lemma_entries_are_read_back(lists: Seq<Seq<(u16, Seq<char>)>>)
    requires
        forall|k: int| 0 <= k < lists.len() ==> have_texts(#[trigger] lists[k]),
    ensures
        mapped_codes(sections_text(as_sections(lists))) == all_entered(lists, Map::empty()),
{
    let sections = as_sections(lists);
    assert forall|k: int| 0 <= k < sections.len() implies is_plain((#[trigger] sections[k]).lead)
        && is_plain(sections[k].body) by {
        lemma_entries_are_plain(lists[k]);
        let body = entries_text(lists[k]).push('\n');
        assert forall|j: int| 0 <= j < body.len() implies #[trigger] body[j] != 'i' && body[j] != 'n' by {
            if j < entries_text(lists[k]).len() {
                assert(body[j] == entries_text(lists[k])[j]);
            }
        }
    }
    lemma_table_of_chars(sections);
    lemma_all_entered(lists, CMapModel::empty());
}

proof fn lemma_all_entered(lists: Seq<Seq<(u16, Seq<char>)>>, m: CMapModel)
    requires
        forall|k: int| 0 <= k < lists.len() ==> have_texts(#[trigger] lists[k]),
    ensures
        after_chars(as_sections(lists), m).chars == all_entered(lists, m.chars),
    decreases lists.len(),
{
    if lists.len() > 0 {
        let rest = lists.skip(1);
        assert(as_sections(lists).skip(1) =~= as_sections(rest));
        assert(have_texts(lists[0]));
        lemma_entries_in_a_line(lists[0], m);
        assert forall|k: int| 0 <= k < rest.len() implies have_texts(#[trigger] rest[k]) by {
            assert(rest[k] == lists[k + 1]);
        }
        lemma_all_entered(rest, after_bfchar(as_sections(lists)[0].body, 0, m));
    }
}

/// An entry is found: the last entry with a code gives the text of the code.
pub proof fn lemma_last_entry_counts(
    lists: Seq<Seq<(u16, Seq<char>)>>,
    chars: Map<u16, Seq<char>>,
    l: int,
    e: int,
)
    requires
        0 <= l < lists.len(),
        0 <= e < lists[l].len(),
        forall|k: int| e < k < lists[l].len() ==> (#[trigger] lists[l][k]).0 != lists[l][e].0,
        forall|j: int, k: int|
            l < j < lists.len() && 0 <= k < lists[j].len() ==> (#[trigger] lists[j][k]).0
                != lists[l][e].0,
    ensures
        all_entered(lists, chars).dom().contains(lists[l][e].0),
        all_entered(lists, chars)[lists[l][e].0] == lists[l][e].1,
    decreases lists.len(),
{
    let code = lists[l][e].0;
    let rest = lists.skip(1);
    if l == 0 {
        lemma_entered(lists[0], chars, e);
        assert forall|j: int, k: int|
            0 <= j < rest.len() && 0 <= k < rest[j].len() implies (#[trigger] rest[j][k]).0 != code by {
            assert(rest[j][k] == lists[j + 1][k]);
        }
        lemma_untouched(rest, entered(lists[0], chars), code);
    } else {
        assert(rest[l - 1] == lists[l]);
        assert forall|j: int, k: int|
            l - 1 < j < rest.len() && 0 <= k < rest[j].len() implies (#[trigger] rest[j][k]).0
            != code by {
            assert(rest[j][k] == lists[j + 1][k]);
        }
        lemma_last_entry_counts(rest, entered(lists[0], chars), l - 1, e);
    }
}

proof fn lemma_entered(entries: Seq<(u16, Seq<char>)>, chars: Map<u16, Seq<char>>, e: int)
    requires
        0 <= e < entries.len(),
        forall|k: int| e < k < entries.len() ==> (#[trigger] entries[k]).0 != entries[e].0,
    ensures
        entered(entries, chars).dom().contains(entries[e].0),
        entered(entries, chars)[entries[e].0] == entries[e].1,
    decreases entries.len(),
{
    let rest = entries.skip(1);
    let more = chars.insert(entries[0].0, entries[0].1);
    if e == 0 {
        assert forall|k: int| 0 <= k < rest.len() implies (#[trigger] rest[k]).0 != entries[0].0 by {
            assert(rest[k] == entries[k + 1]);
        }
        lemma_not_entered(rest, more, entries[0].0);
    } else {
        assert(rest[e - 1] == entries[e]);
        assert forall|k: int| e - 1 < k < rest.len() implies (#[trigger] rest[k]).0 != rest[e
            - 1].0 by {
            assert(rest[k] == entries[k + 1]);
        }
        lemma_entered(rest, more, e - 1);
    }
}

proof fn lemma_not_entered(entries: Seq<(u16, Seq<char>)>, chars: Map<u16, Seq<char>>, code: u16)
    requires
        forall|k: int| 0 <= k < entries.len() ==> (#[trigger] entries[k]).0 != code,
    ensures
        entered(entries, chars).dom().contains(code) == chars.dom().contains(code),
        chars.dom().contains(code) ==> entered(entries, chars)[code] == chars[code],
    decreases entries.len(),
{
    if entries.len() > 0 {
        let rest = entries.skip(1);
        assert(entries[0].0 != code);
        assert forall|k: int| 0 <= k < rest.len() implies (#[trigger] rest[k]).0 != code by {
            assert(rest[k] == entries[k + 1]);
        }
        lemma_not_entered(rest, chars.insert(entries[0].0, entries[0].1), code);
    }
}

proof fn lemma_untouched(
    lists: Seq<Seq<(u16, Seq<char>)>>,
    chars: Map<u16, Seq<char>>,
    code: u16,
)
    requires
        forall|j: int, k: int|
            0 <= j < lists.len() && 0 <= k < lists[j].len() ==> (#[trigger] lists[j][k]).0 != code,
    ensures
        all_entered(lists, chars).dom().contains(code) == chars.dom().contains(code),
        chars.dom().contains(code) ==> all_entered(lists, chars)[code] == chars[code],
    decreases lists.len(),
{
    if lists.len() > 0 {
        let rest = lists.skip(1);
        assert forall|k: int| 0 <= k < lists[0].len() implies (#[trigger] lists[0][k]).0 != code by {}
        lemma_not_entered(lists[0], chars, code);
        assert forall|j: int, k: int|
            0 <= j < rest.len() && 0 <= k < rest[j].len() implies (#[trigger] rest[j][k]).0 != code by {
            assert(rest[j][k] == lists[j + 1][k]);
        }
        lemma_untouched(rest, entered(lists[0], chars), code);
    }
}

// ---------------------------------------------------------------------------------------------
// Ranges
// ---------------------------------------------------------------------------------------------

/// A range as an entry of a section: `<0041> <005A> <0061>` on a line of its own.
#[verifier::opaque]
pub open spec fn range_entry(range: (u16, u16, u16)) -> Seq<char> {
    seq!['\n', '<'] + four_digits(range.0 as int) + seq!['>', ' ', '<'] + four_digits(range.1 as int)
        + seq!['>', ' ', '<'] + four_digits(range.2 as int) + seq!['>']
}

/// Ranges, one behind the other.
pub open spec fn range_entries(ranges: Seq<(u16, u16, u16)>) -> Seq<char>
    decreases ranges.len(),
{
    if ranges.len() == 0 {
        seq![]
    } else {
        range_entry(ranges[0]) + range_entries(ranges.skip(1))
    }
}

/// Ranges as they are kept.
pub open spec fn kept_ranges(ranges: Seq<(u16, u16, u16)>) -> Seq<(u16, u16, u32)> {
    ranges.map_values(|r: (u16, u16, u16)| (r.0, r.1, r.2 as u32))
}

proof fn lemma_range_entry(pre: Seq<char>, range: (u16, u16, u16), rest: Seq<char>, m: CMapModel)
    ensures
        ({
            let s = pre + range_entry(range) + rest;
            let next = pre.len() + range_entry(range).len() as int;
            &&& next <= s.len()
            &&& exists|n: CMapModel| #[trigger]
                after_bfrange(s, next, n) == after_bfrange(s, pre.len() as int, m) && n.chars
                    == m.chars && n.ranges == m.ranges.push((range.0, range.1, range.2 as u32))
        }),
{
    let s = pre + range_entry(range) + rest;
    let i = pre.len() as int;
    let a = four_digits(range.0 as int);
    let b = four_digits(range.1 as int);
    let c = four_digits(range.2 as int);
    let own = range_entry(range);
    reveal(range_entry);
    lemma_four_digits(range.0 as int);
    lemma_four_digits(range.1 as int);
    lemma_four_digits(range.2 as int);
    assert(own.len() == 21);
    assert forall|k: int| 0 <= k < own.len() implies #[trigger] s[i + k] == own[k] by {}
    assert(s[i + 0] == '\n' && s[i + 1] == '<');
    assert forall|k: int| 0 <= k < a.len() implies #[trigger] s[i + 2 + k] == a[k] && a[k] != '>' by {
        assert(s[i + (2 + k)] == own[2 + k]);
    }
    assert(s[i + 6] == '>' && s[i + 7] == ' ' && s[i + 8] == '<');
    lemma_token(s, i, a);
    let j = i + 7;
    assert forall|k: int| 0 <= k < b.len() implies #[trigger] s[j + 2 + k] == b[k] && b[k] != '>' by {
        assert(s[i + (9 + k)] == own[9 + k]);
    }
    assert(s[i + 13] == '>' && s[i + 14] == ' ' && s[i + 15] == '<');
    lemma_token(s, j, b);
    let l = i + 14;
    assert forall|k: int| 0 <= k < c.len() implies #[trigger] s[l + 2 + k] == c[k] && c[k] != '>' by {
        assert(s[i + (16 + k)] == own[16 + k]);
    }
    assert(s[i + 20] == '>');
    lemma_token(s, l, c);
    let next = i + 21;
    let n = m.noted(a).ranged(a, b, c);
    lemma_token_advances(s, i);
    lemma_token_advances(s, j);
    lemma_token_advances(s, l);
    assert(a[0] != '+' && b[0] != '+' && c[0] != '+');
    assert(hex_number(trimmed(a), 0xFFFF) == Some(range.0 as nat));
    assert(hex_number(trimmed(b), 0xFFFF) == Some(range.1 as nat));
    assert(hex_number(trimmed(c), 0xFFFF_FFFF) == Some(range.2 as nat));
    assert(after_bfrange(s, next, n) == after_bfrange(s, i, m));
}

/// Behind the last range there is nothing to read.
proof fn lemma_no_more_ranges(pre: Seq<char>, tail: Seq<char>, m: CMapModel)
    requires
        forall|k: int| 0 <= k < tail.len() ==> is_space(#[trigger] tail[k]),
    ensures
        after_bfrange(pre + tail, pre.len() as int, m) == m,
{
    let s = pre + tail;
    let i = pre.len() as int;
    lemma_space_end(s, i);
    let a = space_end(s, i);
    if a < s.len() {
        assert(s[a] == tail[a - i]);
    }
    assert(token(s, i) is None);
}

/// What is written is read: ranges in a section are kept in order, each with its first code, its last
/// code and the character of its first code.
#[verifier::spinoff_prover]
#[verifier::rlimit(60)]
pub proof fn lemma_ranges_are_read_back(
    pre: Seq<char>,
    ranges: Seq<(u16, u16, u16)>,
    tail: Seq<char>,
    m: CMapModel,
)
    requires
        forall|k: int| 0 <= k < tail.len() ==> is_space(#[trigger] tail[k]),
    ensures
        ({
            let r = after_bfrange(pre + range_entries(ranges) + tail, pre.len() as int, m);
            &&& r.ranges == m.ranges + kept_ranges(ranges)
            &&& r.chars == m.chars
        }),
    decreases ranges.len(),
{
    let s = pre + range_entries(ranges) + tail;
    let i = pre.len() as int;
    if ranges.len() == 0 {
        assert(s =~= pre + tail);
        lemma_no_more_ranges(pre, tail, m);
        assert(m.ranges + kept_ranges(ranges) =~= m.ranges);
    } else {
        let range = ranges[0];
        let rest = ranges.skip(1);
        let own = range_entry(range);
        let later = range_entries(rest) + tail;
        assert(s =~= pre + own + later);
        lemma_range_entry(pre, range, later, m);
        let next = i + own.len() as int;
        let n = choose|n: CMapModel| #[trigger]
            after_bfrange(s, next, n) == after_bfrange(s, i, m) && n.chars == m.chars && n.ranges
                == m.ranges.push((range.0, range.1, range.2 as u32));
        let more = pre + own;
        assert(s =~= more + range_entries(rest) + tail);
        lemma_ranges_are_read_back(more, rest, tail, n);
        assert(n.ranges + kept_ranges(rest) =~= m.ranges + kept_ranges(ranges));
    }
}

/// Texts of consecutive codes, as a list in a range holds them.
pub open spec fn listed_texts(texts: Seq<Seq<char>>) -> Seq<char>
    decreases texts.len(),
{
    if texts.len() == 0 {
        seq![]
    } else {
        seq![' ', '<'] + unit_digits(encoded_units(texts[0])) + seq!['>'] + listed_texts(texts.skip(1))
    }
}

/// Whether the texts of a list are those of the codes from `code` on, and other codes are as before.
pub open spec fn are_listed(
    texts: Seq<Seq<char>>,
    code: int,
    before: Map<u16, Seq<char>>,
    after: Map<u16, Seq<char>>,
) -> bool {
    forall|c: u16|
        if code <= c < code + texts.len() {
            #[trigger] after.dom().contains(c) && after[c] == texts[c - code]
        } else {
            after.dom().contains(c) == before.dom().contains(c) && (before.dom().contains(c)
                ==> after[c] == before[c])
        }
}

/// What is written is read: the texts of a list are those of consecutive codes from the first code of
/// the range on, and the list ends behind its bracket.
#[verifier::spinoff_prover]
pub proof fn lemma_lists_are_read_back(
    pre: Seq<char>,
    texts: Seq<Seq<char>>,
    rest: Seq<char>,
    code: int,
    chars: Map<u16, Seq<char>>,
)
    requires
        texts.len() > 0,
        forall|k: int| 0 <= k < texts.len() ==> (#[trigger] texts[k]).len() > 0,
        0 <= code,
        code + texts.len() <= 0x1_0000,
    ensures
        ({
            let s = pre + listed_texts(texts) + seq![']'] + rest;
            let r = after_list(s, pre.len() as int, code, code + texts.len() - 1, chars);
            &&& are_listed(texts, code, chars, r.0)
            &&& r.1 == pre.len() + listed_texts(texts).len() + 1
        }),
    decreases texts.len(),
{
    let s = pre + listed_texts(texts) + seq![']'] + rest;
    let i = pre.len() as int;
    let last = code + texts.len() - 1;
    let t = unit_digits(encoded_units(texts[0]));
    let own = seq![' ', '<'] + t + seq!['>'];
    let more = texts.skip(1);
    let later = listed_texts(more) + seq![']'] + rest;
    assert(texts[0].len() > 0);
    lemma_targets_are_read_back(texts[0]);
    lemma_unit_digits(encoded_units(texts[0]));
    assert(s =~= pre + own + later);
    assert(s[i] == ' ' && s[i + 1] == '<');
    assert forall|k: int| 0 <= k < t.len() implies #[trigger] s[i + 2 + k] == t[k] && t[k] != '>' by {
        assert(own[2 + k] == t[k]);
        assert(s[i + (2 + k)] == own[2 + k]);
    }
    assert(own[2 + t.len() as int] == '>');
    assert(s[i + (2 + t.len() as int)] == own[2 + t.len() as int]);
    lemma_token(s, i, t);
    let j = i + 3 + t.len();
    assert(own.len() == 3 + t.len());
    let entered = chars.insert(code as u16, texts[0]);
    if texts.len() == 1 {
        assert(more =~= Seq::<Seq<char>>::empty());
        assert(listed_texts(more) =~= Seq::<char>::empty());
        assert(later[0] == ']');
        assert(s[j] == ']');
        lemma_char_found(s, ']', j, j);
        assert(after_list(s, i, code, last, chars).0 == entered);
    } else {
        let pre2 = pre + own;
        assert(s =~= pre2 + listed_texts(more) + seq![']'] + rest);
        assert forall|k: int| 0 <= k < more.len() implies (#[trigger] more[k]).len() > 0 by {
            assert(more[k] == texts[k + 1]);
        }
        lemma_lists_are_read_back(pre2, more, rest, code + 1, entered);
        let r = after_list(s, j, code + 1, last, entered);
        assert(after_list(s, i, code, last, chars) == r);
        assert forall|c: u16|
            if code <= c < code + texts.len() {
                #[trigger] r.0.dom().contains(c) && r.0[c] == texts[c - code]
            } else {
                r.0.dom().contains(c) == chars.dom().contains(c) && (chars.dom().contains(c)
                    ==> r.0[c] == chars[c])
            } by {
            if code + 1 <= c < code + texts.len() {
                assert(more[c - code - 1] == texts[c - code]);
            }
        }
        assert(listed_texts(texts).len() == own.len() + listed_texts(more).len());
    }
}

/// A range with a list of texts: `<0041> <0042> [ <0061> <0062>]` on a line of its own.
pub open spec fn listed_range(first: int, texts: Seq<Seq<char>>) -> Seq<char> {
    listed_head(first, first + texts.len() - 1) + listed_texts(texts) + seq![']']
}

/// The codes of a range and the bracket that opens its list.
#[verifier::opaque]
pub open spec fn listed_head(first: int, last: int) -> Seq<char> {
    seq!['\n', '<'] + four_digits(first) + seq!['>', ' ', '<'] + four_digits(last) + seq!['>', ' ', '[']
}

/// What is written is read: a range with a list gives each of its codes the text that stands for it, and
/// leaves other codes and the other ranges as they were.
#[verifier::spinoff_prover]
#[verifier::rlimit(60)]
pub proof fn lemma_listed_ranges_are_read_back(
    pre: Seq<char>,
    first: int,
    texts: Seq<Seq<char>>,
    tail: Seq<char>,
    m: CMapModel,
)
    requires
        texts.len() > 0,
        forall|k: int| 0 <= k < texts.len() ==> (#[trigger] texts[k]).len() > 0,
        0 <= first,
        first + texts.len() <= 0x1_0000,
        forall|k: int| 0 <= k < tail.len() ==> is_space(#[trigger] tail[k]),
    ensures
        ({
            let r = after_bfrange(pre + listed_range(first, texts) + tail, pre.len() as int, m);
            &&& are_listed(texts, first, m.chars, r.chars)
            &&& r.ranges == m.ranges
        }),
{
    let s = pre + listed_range(first, texts) + tail;
    let i = pre.len() as int;
    let last = first + texts.len() - 1;
    let a = four_digits(first);
    let b = four_digits(last);
    let head = listed_head(first, last);
    let list = listed_texts(texts);
    lemma_four_digits(first);
    lemma_four_digits(last);
    assert(s =~= pre + head + list + seq![']'] + tail);
    lemma_head_length(first, last);
    assert(s.subrange(i, i + 16) =~= head);
    lemma_head(s, pre, first, last);
    let p = i + 15;
    assert(hex_number(trimmed(a), 0xFFFF) == Some(first as nat)) by {
        assert(a[0] != '+');
    }
    assert(hex_number(trimmed(b), 0xFFFF) == Some(last as nat)) by {
        assert(b[0] != '+');
    }
    let n = m.noted(a);
    lemma_lists_are_read_back(pre + head, texts, tail, first, n.chars);
    assert(pre + head + list + seq![']'] + tail =~= s);
    assert((pre + head).len() == p + 1);
    let (chars, q) = after_list(s, p + 1, first, last, n.chars);
    lemma_token_advances(s, i);
    lemma_token_advances(s, i + 7);
    lemma_token_advances(s, i + 14);
    let made = CMapModel { chars, ..n };
    assert(after_bfrange(s, i, m) == after_bfrange(s, q, made));
    let front = pre + head + list + seq![']'];
    assert(s =~= front + tail);
    assert(q == front.len());
    lemma_no_more_ranges(front, tail, made);
}

proof fn lemma_head_length(first: int, last: int)
    requires
        0 <= first <= 0xFFFF,
        0 <= last <= 0xFFFF,
    ensures
        listed_head(first, last).len() == 16,
{
    reveal(listed_head);
    lemma_four_digits(first);
    lemma_four_digits(last);
}

proof fn lemma_head(s: Seq<char>, pre: Seq<char>, first: int, last: int)
    requires
        0 <= first <= 0xFFFF,
        0 <= last <= 0xFFFF,
        pre.len() + 16 <= s.len(),
        s.subrange(pre.len() as int, pre.len() as int + 16) == listed_head(first, last),
    ensures
        listed_head(first, last).len() == 16,
        token(s, pre.len() as int) == Some((four_digits(first), pre.len() as int + 7)),
        token(s, pre.len() as int + 7) == Some((four_digits(last), pre.len() as int + 14)),
        token(s, pre.len() as int + 14) is None,
        space_end(s, pre.len() as int + 14) == pre.len() as int + 15,
        s[pre.len() as int + 15] == '[',
{
    reveal(listed_head);
    let i = pre.len() as int;
    let own = listed_head(first, last);
    let a = four_digits(first);
    let b = four_digits(last);
    lemma_four_digits(first);
    lemma_four_digits(last);
    assert(own.len() == 16);
    assert forall|k: int| 0 <= k < 16 implies #[trigger] s[i + k] == own[k] by {
        assert(s.subrange(i, i + 16)[k] == own[k]);
    }
    assert(s[i + 0] == '\n' && s[i + 1] == '<');
    assert forall|k: int| 0 <= k < a.len() implies #[trigger] s[i + 2 + k] == a[k] && a[k] != '>' by {
        assert(s[i + (2 + k)] == own[2 + k]);
    }
    assert(s[i + 6] == '>' && s[i + 7] == ' ' && s[i + 8] == '<');
    lemma_token(s, i, a);
    let j = i + 7;
    assert forall|k: int| 0 <= k < b.len() implies #[trigger] s[j + 2 + k] == b[k] && b[k] != '>' by {
        assert(s[i + (9 + k)] == own[9 + k]);
    }
    assert(s[i + 13] == '>' && s[i + 14] == ' ' && s[i + 15] == '[');
    lemma_token(s, j, b);
    reveal_with_fuel(space_end, 3);
    assert(!is_space('['));
}

/// Whether ranges go up and do not overlap.
pub open spec fn are_apart(ranges: Seq<(u16, u16, u32)>) -> bool {
    forall|i: int, j: int|
        0 <= i < j < ranges.len() ==> (#[trigger] ranges[i]).1 < (#[trigger] ranges[j]).0
}

proof fn lemma_starts(ranges: Seq<(u16, u16, u32)>, code: u16)
    ensures
        0 <= starts_below(ranges, code) <= ranges.len(),
        starts_below(ranges, code) > 0 ==> ranges[starts_below(ranges, code) - 1].0 < code,
        forall|k: int|
            starts_below(ranges, code) <= k < ranges.len() ==> (#[trigger] ranges[k]).0 >= code,
    decreases ranges.len(),
{
    if ranges.len() > 0 && ranges.last().0 >= code {
        let rest = ranges.drop_last();
        lemma_starts(rest, code);
        let p = starts_below(rest, code);
        assert forall|k: int| p <= k < ranges.len() implies (#[trigger] ranges[k]).0 >= code by {
            if k < rest.len() {
                assert(rest[k] == ranges[k]);
            }
        }
        if p > 0 {
            assert(rest[p - 1] == ranges[p - 1]);
        }
    }
}

/// A range counts up: a code in it, so many behind its first code, stands for the character that comes
/// so many behind that of the first code. A code that is mapped by itself stands for its own text, and
/// one in no range for nothing.
pub proof fn lemma_ranges_count_up(
    chars: Map<u16, Seq<char>>,
    ranges: Seq<(u16, u16, u32)>,
    code: u16,
    k: int,
)
    requires
        forall|i: int| 0 <= i < ranges.len() ==> (#[trigger] ranges[i]).0 <= ranges[i].1,
        are_apart(ranges),
    ensures
        chars.dom().contains(code) ==> code_text(chars, ranges, code) == Some(chars[code]),
        !chars.dom().contains(code) && 0 <= k < ranges.len() && ranges[k].0 <= code <= ranges[k].1
            && is_scalar_value(ranges[k].2 + (code - ranges[k].0)) ==> code_text(
            chars,
            ranges,
            code,
        ) == Some(seq![(ranges[k].2 + (code - ranges[k].0)) as char]),
        !chars.dom().contains(code) && (forall|i: int|
            0 <= i < ranges.len() ==> !((#[trigger] ranges[i]).0 <= code <= ranges[i].1))
            ==> code_text(chars, ranges, code) is None,
{
    lemma_starts(ranges, code);
    let p = starts_below(ranges, code);
    if 0 <= k < ranges.len() && ranges[k].0 <= code <= ranges[k].1 {
        if ranges[k].0 == code {
            assert(k >= p) by {
                if k < p - 1 {
                    assert(ranges[k].1 < ranges[p - 1].0);
                }
            }
            assert(k == p) by {
                if p < k {
                    assert(ranges[p].1 < ranges[k].0);
                    assert(ranges[p].0 <= ranges[p].1);
                }
            }
        } else {
            assert(k < p) by {
                if k >= p {
                    assert(ranges[k].0 >= code);
                }
            }
            assert(k == p - 1) by {
                if k < p - 1 {
                    assert(ranges[k].1 < ranges[p - 1].0);
                }
            }
            if p < ranges.len() {
                assert(ranges[p - 1].1 < ranges[p].0);
            }
        }
    }
    if 0 <= p < ranges.len() {
        assert(ranges[p].0 >= code);
    }
}

// ---------------------------------------------------------------------------------------------
// Codes and widths
// ---------------------------------------------------------------------------------------------

/// A code of two bytes is written with its high byte first, and one of one byte by itself; each that is
/// mapped decodes to its text.
pub proof fn lemma_mapped_codes_decode(cmap: ToUnicodeCMap, code: u16, text: Seq<char>)
    requires
        cmap.text_of(code) == Some(text),
        !text.contains('\u{FFFD}'),
    ensures
        cmap.code_byte_length == 2 ==> cmap.decoded(seq![(code / 256) as u8, (code % 256) as u8])
            == text,
        cmap.code_byte_length == 1 && code < 256 ==> cmap.decoded(seq![code as u8]) == text,
{
    let two = seq![(code / 256) as u8, (code % 256) as u8];
    let one = seq![code as u8];
    assert((code / 256) as int * 256 + (code % 256) as int == code);
    assert(codes_of(two, 2) =~= seq![code]);
    if code < 256 {
        assert(codes_of(one, 1) =~= seq![code]);
    }
    let codes = seq![code];
    reveal_with_fuel(ToUnicodeCMap::unmapped, 2);
    reveal_with_fuel(ToUnicodeCMap::codes_text, 2);
    assert(codes.drop_last() =~= seq![]);
    assert(cmap.usable_text(code) == Some(text));
    assert(cmap.codes_text(codes) =~= text);
}

/// A string that the table does not map, or hardly maps, is not decoded by it: where more than half of
/// its codes have no text, nothing comes out.
pub proof fn lemma_unmapped_strings_are_left(cmap: ToUnicodeCMap, bytes: Seq<u8>)
    requires
        forall|code: u16| #[trigger] cmap.text_of(code) is None,
        codes_of(bytes, cmap.code_byte_length).len() > 0,
    ensures
        cmap.decoded(bytes).len() == 0,
{
    lemma_all_unmapped(cmap, codes_of(bytes, cmap.code_byte_length));
}

proof fn lemma_all_unmapped(cmap: ToUnicodeCMap, codes: Seq<u16>)
    requires
        forall|code: u16| #[trigger] cmap.text_of(code) is None,
    ensures
        cmap.unmapped(codes) == codes.len(),
    decreases codes.len(),
{
    if codes.len() > 0 {
        lemma_all_unmapped(cmap, codes.drop_last());
        assert(cmap.text_of(codes.last()) is None);
    }
}

/// The width of a code is that of the codespace, one or two bytes; but where all codes are written in a
/// single byte each, it is one in spite of a codespace of two. Without a codespace the codes that are
/// written decide.
pub proof fn lemma_widths_of_codes(codespace: Option<u8>, narrow: Seq<bool>)
    ensures
        codespace == Some(1u8) ==> code_width(codespace, narrow) == 1,
        codespace == Some(2u8) && (exists|k: int| 0 <= k < narrow.len() && !(#[trigger] narrow[k]))
            ==> code_width(codespace, narrow) == 2,
        codespace == Some(2u8) && narrow.len() > 0 && (forall|k: int|
            0 <= k < narrow.len() ==> #[trigger] narrow[k]) ==> code_width(codespace, narrow) == 1,
        codespace is None && (exists|k: int| 0 <= k < narrow.len() && !(#[trigger] narrow[k]))
            ==> code_width(codespace, narrow) == 2,
        codespace is None && narrow.len() > 0 && (forall|k: int|
            0 <= k < narrow.len() ==> #[trigger] narrow[k]) ==> code_width(codespace, narrow) == 1,
        1 <= code_width(codespace, narrow) <= 2,
{
}

/// The codespace section gives the width: `<00> <FF>` is one byte, `<0000> <FFFF>` two.
pub proof fn lemma_codespaces_give_the_width(first: u16, last: u16)
    ensures
        ({
            let wide = Section {
                lead: seq![],
                kind: SectionKind::Codespace,
                body: seq!['<'] + four_digits(first as int) + seq!['>', ' ', '<'] + four_digits(
                    last as int,
                ) + seq!['>'],
            };
            codespace_width(sections_text(seq![wide])) == Some(2u8)
        }),
        ({
            let slim = Section {
                lead: seq![],
                kind: SectionKind::Codespace,
                body: seq!['<'] + four_digits(first as int).skip(2) + seq!['>', ' ', '<']
                    + four_digits(last as int).skip(2) + seq!['>'],
            };
            codespace_width(sections_text(seq![slim])) == Some(1u8)
        }),
{
    let f = four_digits(first as int);
    let l = four_digits(last as int);
    lemma_four_digits(first as int);
    lemma_four_digits(last as int);
    lemma_codespace(f, l);
    lemma_codespace(f.skip(2), l.skip(2));
}

/// The width that a codespace of two numbers of so many digits gives.
proof fn lemma_codespace(f: Seq<char>, l: Seq<char>)
    requires
        0 < f.len() <= 4,
        0 < l.len() <= 4,
        forall|k: int|
            0 <= k < f.len() ==> hex_digit(#[trigger] f[k]) is Some && f[k] != 'i' && f[k] != 'n',
        forall|k: int|
            0 <= k < l.len() ==> hex_digit(#[trigger] l[k]) is Some && l[k] != 'i' && l[k] != 'n',
    ensures
        codespace_width(
            sections_text(
                seq![
                    Section {
                        lead: seq![],
                        kind: SectionKind::Codespace,
                        body: seq!['<'] + f + seq!['>', ' ', '<'] + l + seq!['>'],
                    },
                ],
            ),
        ) == Some(((l.len() + 1) / 2) as u8),
{
    let body = seq!['<'] + f + seq!['>', ' ', '<'] + l + seq!['>'];
    let section = Section { lead: seq![], kind: SectionKind::Codespace, body };
    let n = f.len() as int;
    assert(body.len() == n + l.len() + 5);
    assert(body[0] == '<' && body[n + 1] == '>' && body[n + 2] == ' ' && body[n + 3] == '<');
    assert(body[n + 4 + l.len()] == '>');
    assert forall|k: int| 0 <= k < n implies #[trigger] body[1 + k] == f[k] by {}
    assert forall|k: int| 0 <= k < l.len() implies #[trigger] body[n + 4 + k] == l[k] by {}
    assert forall|k: int| 0 <= k < body.len() implies #[trigger] body[k] != 'i' && body[k] != 'n' by {
        if 1 <= k < n + 1 {
            assert(body[1 + (k - 1)] == f[k - 1]);
        } else if n + 4 <= k < n + 4 + l.len() {
            assert(body[n + 4 + (k - n - 4)] == l[k - n - 4]);
        }
    }
    let none: Seq<char> = seq![];
    let sections = seq![section];
    assert(is_plain(sections[0].lead) && is_plain(sections[0].body));
    lemma_next_section(none, sections, 0, SectionKind::Codespace);
    assert(none + sections_text(sections) =~= sections_text(sections));
    lemma_codespace_token(body, 0, f, None);
    let width = Some(((n + 1) / 2) as u8);
    assert(codespace_from(body, n + 2, None, width) == codespace_from(body, n + 3, None, width));
    lemma_codespace_token(body, n + 3, l, width);
}

proof fn lemma_codespace_token(s: Seq<char>, i: int, t: Seq<char>, width: Option<u8>)
    requires
        0 <= i,
        i + 1 + t.len() < s.len(),
        0 < t.len() <= 4,
        s[i] == '<',
        forall|k: int|
            0 <= k < t.len() ==> #[trigger] s[i + 1 + k] == t[k] && hex_digit(t[k]) is Some,
        s[i + 1 + t.len()] == '>',
    ensures
        codespace_from(s, i, None, width) == codespace_from(
            s,
            i + 2 + t.len(),
            None,
            Some(((t.len() + 1) / 2) as u8),
        ),
{
    lemma_codespace_digits(s, i + 1, t, 0, width);
    assert(((t.len() + 1) / 2) % 256 == (t.len() + 1) / 2);
}

proof fn lemma_codespace_digits(s: Seq<char>, i: int, t: Seq<char>, n: nat, width: Option<u8>)
    requires
        0 <= i,
        i + t.len() < s.len(),
        n <= t.len(),
        forall|k: int|
            0 <= k < t.len() ==> #[trigger] s[i + k] == t[k] && hex_digit(t[k]) is Some,
    ensures
        codespace_from(s, i + n, Some(n), width) == codespace_from(
            s,
            i + t.len(),
            Some(t.len()),
            width,
        ),
    decreases t.len() - n,
{
    if n < t.len() {
        assert(s[i + n] == t[n as int]);
        assert(hex_digit('<') is None && hex_digit('>') is None);
        lemma_codespace_digits(s, i, t, n + 1, width);
    }
}

/// A string is decoded code by code, where no more than half of its codes are unmapped; where more are, it
/// is not decoded. An unmapped code of one byte is the character with its number, unless it is a control
/// code; an unmapped code of two bytes is nothing. A replacement character maps nothing.
pub proof fn lemma_how_codes_decode(
    cmap: ToUnicodeCMap,
    bytes: Seq<u8>,
    codes: Seq<u16>,
    code: u16,
    text: Seq<char>,
)
    ensures
        ({
            let all = codes_of(bytes, cmap.code_byte_length);
            &&& 2 * cmap.unmapped(all) <= all.len() ==> cmap.decoded(bytes) == cmap.codes_text(all)
            &&& 2 * cmap.unmapped(all) > all.len() ==> cmap.decoded(bytes).len() == 0
        }),
        cmap.text_of(code) == Some(text) && !text.contains('\u{FFFD}') ==> cmap.codes_text(
            codes.push(code),
        ) == cmap.codes_text(codes) + text && cmap.unmapped(codes.push(code)) == cmap.unmapped(codes),
        cmap.text_of(code) is None || cmap.text_of(code)->0.contains('\u{FFFD}') ==> cmap.unmapped(
            codes.push(code),
        ) == cmap.unmapped(codes) + 1,
        cmap.text_of(code) is None && cmap.code_byte_length == 1 && code >= 32 ==> cmap.codes_text(
            codes.push(code),
        ) == cmap.codes_text(codes) + seq![code as char],
        cmap.text_of(code) is None && (cmap.code_byte_length != 1 || code < 32) ==> cmap.codes_text(
            codes.push(code),
        ) == cmap.codes_text(codes),
{
    assert(codes.push(code).drop_last() =~= codes);
    assert(cmap.codes_text(codes) + Seq::<char>::empty() =~= cmap.codes_text(codes));
}

} // verus!
