//! What fonts say of the strings that are shown in them: laws on widths, encodings and texts.

use crate::encodings::{differences, glyph_char};
use crate::font_cmaps::FontCMaps;
use crate::limits::font_text;
use crate::numbers::order_of;
use crate::page_fonts::{differing_text, last_named, shown_text, FontModel};
use crate::pdf::{entry, key, Entries, Objects, PdfValue};
use crate::text::lossy_text;
use crate::text_utils::string_text;
use crate::widths::{
    after_width_list, array_at, composite_widths, font_widths, is_standard_scale, number_16,
    simple_space_width, simple_widths, units_scale_of, width_sum, with_run, with_same, SpaceWidth,
    UnitsScale, Widths,
};
use vstd::prelude::*;
use vstd::utf8::encode_utf8_decode_utf8;

verus! {

// ---------------------------------------------------------------------------------------------
// Dictionaries
// ---------------------------------------------------------------------------------------------

/// The value under a key is that of the first entry with the key, wherever it stands.
pub proof fn lemma_entries_are_found(entries: Entries, name: Seq<u8>, i: int)
    requires
        0 <= i < entries.len(),
        entries[i].0 == name,
        forall|k: int| 0 <= k < i ==> (#[trigger] entries[k]).0 != name,
    ensures
        entry(entries, name) == Some(entries[i].1),
    decreases entries.len(),
{
    if i > 0 {
        assert(entries[0].0 != name);
        let rest = entries.skip(1);
        assert(rest[i - 1] == entries[i]);
        assert forall|k: int| 0 <= k < i - 1 implies (#[trigger] rest[k]).0 != name by {
            assert(rest[k] == entries[k + 1]);
        }
        lemma_entries_are_found(rest, name, i - 1);
    }
}

// ---------------------------------------------------------------------------------------------
// Simple fonts
// ---------------------------------------------------------------------------------------------

/// Whether a font lists widths for the codes from `first` to `last`.
pub open spec fn lists_widths(font: Entries, first: i64, last: i64, list: Seq<PdfValue>) -> bool {
    &&& entry(font, key("FirstChar")) == Some(PdfValue::Integer(first))
    &&& entry(font, key("LastChar")) == Some(PdfValue::Integer(last))
    &&& entry(font, key("Widths")) == Some(PdfValue::Array(list))
    &&& 0 <= first <= last <= 0xFFFF
}

/// A simple font gives each code the width that stands for it in its list, counted from the first code;
/// codes before the first, behind the last and behind the end of the list have no width. The width of a
/// space is that of code 32, where the font lists one.
pub proof fn lemma_widths_of_simple_fonts(
    objects: Objects,
    font: Entries,
    first: i64,
    last: i64,
    list: Seq<PdfValue>,
    code: u16,
    w: i64,
)
    requires
        lists_widths(font, first, last, list),
        0 <= w <= 0xFFFF,
    ensures
        simple_widths(objects, font) is Some,
        ({
            let widths = simple_widths(objects, font)->0;
            let at = code - first;
            &&& 0 <= at < list.len() && code <= last && list[at] == PdfValue::Integer(w)
                ==> widths.width_of(code) == w
            &&& at < 0 || code > last || at >= list.len() ==> widths.width_of(code) == 0
            &&& !widths.is_cid
            &&& widths.wmode == 0
            &&& code == 32 && 0 <= at < list.len() && code <= last && list[at] == PdfValue::Integer(
                w,
            ) && w > 0 ==> widths.space_width == SpaceWidth::Units(w as u16)
            &&& (code == 32 && (at < 0 || code > last || at >= list.len()) && entry(
                font,
                key("FontMatrix"),
            ) is None) ==> widths.space_width == SpaceWidth::Units(250)
            &&& entry(font, key("FontMatrix")) is None ==> widths.units_scale
                == UnitsScale::Thousandth
        }),
{
    assert(0 <= first <= last <= 0xFFFF);
    assert(crate::numbers::low_16(first as int) == first);
    assert(crate::numbers::low_16(last as int) == last);
    assert(crate::numbers::low_16(w as int) == w);
}

/// A font unit is what the first number of the font matrix says, and a thousandth without one.
pub proof fn lemma_units_of_fonts(objects: Objects, font: Entries, bits: u32, i: i64, rest: Seq<PdfValue>)
    ensures
        entry(font, key("FontMatrix")) == Some(PdfValue::Array(seq![PdfValue::Real(bits)] + rest))
            ==> units_scale_of(objects, font) == UnitsScale::Real(bits),
        entry(font, key("FontMatrix")) == Some(PdfValue::Array(seq![PdfValue::Integer(i)] + rest))
            ==> units_scale_of(objects, font) == UnitsScale::Integer(i),
        entry(font, key("FontMatrix")) is None ==> units_scale_of(objects, font)
            == UnitsScale::Thousandth,
{
    assert((seq![PdfValue::Real(bits)] + rest)[0] == PdfValue::Real(bits));
    assert((seq![PdfValue::Integer(i)] + rest)[0] == PdfValue::Integer(i));
}

/// A scale is about a thousandth where it lies between a half and one and a half of it, whatever its sign.
pub proof fn lemma_what_a_common_scale_is(bits: u32, i: i64)
    requires
        bits < 0x7F80_0000,
    ensures
        is_standard_scale(UnitsScale::Thousandth),
        !is_standard_scale(UnitsScale::Integer(i)),
        is_standard_scale(UnitsScale::Real(bits)) <==> order_of(0x3A03126F) <= order_of(bits)
            <= order_of(0x3AC49BA6),
        is_standard_scale(UnitsScale::Real((bits + 0x8000_0000) as u32)) <==> is_standard_scale(
            UnitsScale::Real(bits),
        ),
{
    assert(bits / 0x80_0000 < 255);
    let other = (bits + 0x8000_0000) as u32;
    assert(other % 0x8000_0000 == bits);
    assert(other / 0x80_0000 % 0x100 == bits / 0x80_0000 % 0x100);
    assert(other % 0x80_0000 == bits % 0x80_0000);
}

/// Without a width for code 32 the width of a space is estimated by the average of the listed widths,
/// where a font unit is no thousandth; the listed widths add up one by one.
pub proof fn lemma_estimated_spaces(
    objects: Objects,
    widths: Map<u16, u16>,
    list: Seq<PdfValue>,
    n: int,
    w: i64,
    scale: UnitsScale,
    sum: (nat, nat),
)
    requires
        0 <= n < list.len(),
        list[n] == PdfValue::Integer(w),
        0 <= w <= 0xFFFF,
    ensures
        width_sum(objects, list, 0) == (0nat, 0nat),
        width_sum(objects, list, n + 1).0 == width_sum(objects, list, n).0 + w,
        width_sum(objects, list, n + 1).1 == width_sum(objects, list, n).1 + 1,
        !widths.dom().contains(32) && sum.1 > 0 && !is_standard_scale(scale) ==> simple_space_width(
            widths,
            sum,
            scale,
        ) == SpaceWidth::OfAverage(sum.0 as u32, sum.1 as u32),
        !widths.dom().contains(32) && is_standard_scale(scale) ==> simple_space_width(
            widths,
            sum,
            scale,
        ) == SpaceWidth::Units(250),
{
    assert(crate::numbers::low_16(w as int) == w);
}

/// The kind of a font decides how its widths are given.
pub proof fn lemma_kinds_of_fonts(objects: Objects, font: Entries, kind: Seq<u8>)
    requires
        entry(font, key("Subtype")) == Some(PdfValue::Name(kind)),
    ensures
        kind == key("Type0") ==> font_widths(objects, font) == composite_widths(objects, font),
        kind == key("Type1") ==> font_widths(objects, font) == simple_widths(objects, font),
        kind == key("TrueType") ==> font_widths(objects, font) == simple_widths(objects, font),
        kind == key("MMType1") ==> font_widths(objects, font) == simple_widths(objects, font),
        kind == key("Type3") ==> font_widths(objects, font) == simple_widths(objects, font),
        kind == key("CIDFontType2") ==> font_widths(objects, font) is None,
{
    reveal_strlit("Type0");
    reveal_strlit("Type1");
    reveal_strlit("TrueType");
    reveal_strlit("MMType1");
    reveal_strlit("Type3");
    reveal_strlit("CIDFontType2");
    encode_utf8_decode_utf8("Type0"@);
    encode_utf8_decode_utf8("Type1"@);
    encode_utf8_decode_utf8("TrueType"@);
    encode_utf8_decode_utf8("MMType1"@);
    encode_utf8_decode_utf8("Type3"@);
    encode_utf8_decode_utf8("CIDFontType2"@);
    assert("Type0"@[4] == '0' && "Type1"@[4] == '1' && "Type3"@[4] == '3');
    assert("Type0"@ != "Type1"@);
    assert("Type0"@ != "Type3"@);
    assert("Type0"@.len() == 5 && "TrueType"@.len() == 8 && "MMType1"@.len() == 7
        && "CIDFontType2"@.len() == 12 && "Type1"@.len() == 5 && "Type3"@.len() == 5);
}

// ---------------------------------------------------------------------------------------------
// Composite fonts
// ---------------------------------------------------------------------------------------------

proof fn lemma_list_shift(
    objects: Objects,
    front: Seq<PdfValue>,
    rest: Seq<PdfValue>,
    i: int,
    widths: Map<u16, u16>,
)
    requires
        0 <= i,
    ensures
        after_width_list(objects, front + rest, front.len() + i, widths) == after_width_list(
            objects,
            rest,
            i,
            widths,
        ),
    decreases rest.len() - i,
{
    let list = front + rest;
    let n = front.len() as int;
    if i < rest.len() {
        assert(list[n + i] == rest[i]);
        if i + 1 < rest.len() {
            assert(list[n + i + 1] == rest[i + 1]);
        }
        if i + 2 < rest.len() {
            assert(list[n + i + 2] == rest[i + 2]);
        }
        match number_16(rest[i]) {
            None => {
                lemma_list_shift(objects, front, rest, i + 1, widths);
            },
            Some(start) => {
                if i + 1 < rest.len() {
                    lemma_list_shift(objects, front, rest, i + 2, widths);
                    match array_at(objects, rest[i + 1]) {
                        Some(items) => {
                            lemma_list_shift(
                                objects,
                                front,
                                rest,
                                i + 2,
                                with_run(widths, start, items, items.len() as int),
                            );
                        },
                        None => {},
                    }
                    if i + 2 < rest.len() {
                        lemma_list_shift(objects, front, rest, i + 3, widths);
                    }
                    if i + 2 < rest.len() && number_16(rest[i + 1]) is Some && number_16(rest[i + 2]) is Some {
                        lemma_list_shift(
                            objects,
                            front,
                            rest,
                            i + 3,
                            with_same(
                                widths,
                                start,
                                number_16(rest[i + 1])->0,
                                number_16(rest[i + 2])->0,
                            ),
                        );
                    }
                }
            },
        }
    }
}

/// The widths that a composite font lists.
pub open spec fn widths_listed(objects: Objects, list: Seq<PdfValue>) -> Map<u16, u16> {
    after_width_list(objects, list, 0, Map::empty())
}

/// The first part of an entry of a composite font's list: a code and the widths from it on.
pub open spec fn run_entry(start: i64, items: Seq<PdfValue>) -> Seq<PdfValue> {
    seq![PdfValue::Integer(start), PdfValue::Array(items)]
}

/// An entry of a composite font's list: two codes and the width of all codes between them.
pub open spec fn range_of_codes(start: i64, end: i64, w: i64) -> Seq<PdfValue> {
    seq![PdfValue::Integer(start), PdfValue::Integer(end), PdfValue::Integer(w)]
}

proof fn lemma_run(widths: Map<u16, u16>, start: u16, list: Seq<PdfValue>, n: int, code: u16)
    requires
        0 <= n <= list.len(),
        forall|k: int|
            0 <= k < list.len() ==> (#[trigger] list[k]) is Integer && 0 <= list[k]->Integer_0
                <= 0xFFFF,
    ensures
        ({
            let after = with_run(widths, start, list, n);
            if start <= code < start + n {
                after.dom().contains(code) && after[code] == list[code - start]->Integer_0
            } else {
                after.dom().contains(code) == widths.dom().contains(code) && (
                widths.dom().contains(code) ==> after[code] == widths[code])
            }
        }),
    decreases n,
{
    if n > 0 {
        lemma_run(widths, start, list, n - 1, code);
        assert(list[n - 1] is Integer);
        assert(number_16(list[n - 1]) == Some(list[n - 1]->Integer_0 as u16));
    }
}

/// The entries of a composite font's list count one after the other: an array gives its widths to the
/// code before it and to those that follow, two codes and a width give it to all codes from the first to
/// the second; codes that an entry does not name are left to the entries before it.
pub proof fn lemma_widths_of_composite_fonts(
    objects: Objects,
    widths: Map<u16, u16>,
    start: i64,
    end: i64,
    w: i64,
    items: Seq<PdfValue>,
    rest: Seq<PdfValue>,
    code: u16,
)
    requires
        0 <= start <= end <= 0xFFFF,
        0 <= w <= 0xFFFF,
        forall|k: int|
            0 <= k < items.len() ==> (#[trigger] items[k]) is Integer && 0 <= items[k]->Integer_0
                <= 0xFFFF,
    ensures
        ({
            let after = after_width_list(objects, run_entry(start, items), 0, widths);
            &&& start <= code < start + items.len() ==> after.dom().contains(code) && after[code]
                == items[code - start]->Integer_0
            &&& !(start <= code < start + items.len()) ==> after.dom().contains(code)
                == widths.dom().contains(code) && (widths.dom().contains(code) ==> after[code]
                == widths[code])
        }),
        ({
            let after = after_width_list(objects, range_of_codes(start, end, w), 0, widths);
            &&& start <= code <= end ==> after.dom().contains(code) && after[code] == w
            &&& !(start <= code <= end) ==> after.dom().contains(code) == widths.dom().contains(code)
                && (widths.dom().contains(code) ==> after[code] == widths[code])
        }),
        after_width_list(objects, run_entry(start, items) + rest, 0, widths) == after_width_list(
            objects,
            rest,
            0,
            after_width_list(objects, run_entry(start, items), 0, widths),
        ),
        after_width_list(objects, range_of_codes(start, end, w) + rest, 0, widths)
            == after_width_list(
            objects,
            rest,
            0,
            after_width_list(objects, range_of_codes(start, end, w), 0, widths),
        ),
{
    let s = start as u16;
    assert(crate::numbers::low_16(start as int) == start);
    assert(crate::numbers::low_16(end as int) == end);
    assert(crate::numbers::low_16(w as int) == w);
    let a = run_entry(start, items);
    let b = range_of_codes(start, end, w);
    let run = with_run(widths, s, items, items.len() as int);
    let same = with_same(widths, s, end as u16, w as u16);
    lemma_run(widths, s, items, items.len() as int, code);
    assert(a[0] == PdfValue::Integer(start) && a[1] == PdfValue::Array(items));
    assert(after_width_list(objects, a, 2, run) == run);
    assert(after_width_list(objects, a, 0, widths) == run);
    assert(b[0] == PdfValue::Integer(start) && b[1] == PdfValue::Integer(end) && b[2]
        == PdfValue::Integer(w));
    assert(after_width_list(objects, b, 3, same) == same);
    assert(after_width_list(objects, b, 0, widths) == same);
    let ar = a + rest;
    let br = b + rest;
    assert(ar[0] == a[0] && ar[1] == a[1]);
    assert(br[0] == b[0] && br[1] == b[1] && br[2] == b[2]);
    lemma_list_shift(objects, a, rest, 0, run);
    lemma_list_shift(objects, b, rest, 0, same);
    assert(after_width_list(objects, ar, 0, widths) == after_width_list(objects, ar, 2, run));
    assert(after_width_list(objects, br, 0, widths) == after_width_list(objects, br, 3, same));
}

/// A composite font has the widths that its descendant lists; codes that are not listed have the width
/// under `DW`, or 1000. The width of a space is that of code 32, or of code 3, or a quarter of the width
/// of what is not listed.
pub proof fn lemma_what_composite_fonts_say(
    objects: Objects,
    font: Entries,
    below: Entries,
    list: Seq<PdfValue>,
    w: i64,
    mode: i64,
    code: u16,
)
    requires
        entry(font, key("DescendantFonts")) == Some(
            PdfValue::Array(seq![PdfValue::Dictionary(below)]),
        ),
        entry(below, key("W")) == Some(PdfValue::Array(list)),
        entry(below, key("DW")) == Some(PdfValue::Integer(w)) || (entry(below, key("DW")) is None && w
            == 1000),
        entry(font, key("WMode")) == Some(PdfValue::Integer(mode)) || (entry(font, key("WMode")) is None
            && mode == 0),
        0 <= w <= 0xFFFF,
        0 <= mode <= 1,
    ensures
        composite_widths(objects, font) is Some,
        ({
            let listed = widths_listed(objects, list);
            let widths = composite_widths(objects, font)->0;
            &&& listed.dom().contains(code) ==> widths.width_of(code) == listed[code]
            &&& !listed.dom().contains(code) ==> widths.width_of(code) == w
            &&& widths.is_cid
            &&& widths.wmode == mode
            &&& widths.units_scale == UnitsScale::Thousandth
            &&& listed.dom().contains(32) ==> widths.space_width == SpaceWidth::Units(listed[32])
            &&& !listed.dom().contains(32) && listed.dom().contains(3) ==> widths.space_width
                == SpaceWidth::Units(listed[3])
            &&& !listed.dom().contains(32) && !listed.dom().contains(3) && w > 0
                ==> widths.space_width == SpaceWidth::Units((w / 4) as u16)
        }),
{
    let fonts = seq![PdfValue::Dictionary(below)];
    assert(fonts[0] == PdfValue::Dictionary(below));
    assert(crate::numbers::low_16(w as int) == w);
    assert(crate::numbers::low_8(mode as int) == mode);
}

/// The width of a string is what the widths of its codes add up to: of one byte each in a simple font,
/// of two in a composite one.
pub proof fn lemma_widths_add_up(widths: Widths, codes: Seq<u16>, code: u16, a: u8, b: u8)
    ensures
        widths.total(codes.push(code)) == widths.total(codes) + widths.width_of(code),
        widths.total(Seq::<u16>::empty()) == 0,
        widths.total(crate::tounicode::codes_of(seq![a, b], 1)) == widths.width_of(a as u16)
            + widths.width_of(b as u16),
        widths.total(crate::tounicode::codes_of(seq![a, b], 2)) == widths.width_of(
            (a * 256 + b) as u16,
        ),
{
    assert(codes.push(code).drop_last() =~= codes);
    reveal_with_fuel(Widths::total, 3);
    let one = crate::tounicode::codes_of(seq![a, b], 1);
    let two = crate::tounicode::codes_of(seq![a, b], 2);
    assert(one =~= seq![a as u16, b as u16]);
    assert(one.drop_last() =~= seq![a as u16]);
    assert(one.drop_last().drop_last() =~= Seq::<u16>::empty());
    assert(two =~= seq![(a * 256 + b) as u16]);
    assert(two.drop_last() =~= Seq::<u16>::empty());
}

// ---------------------------------------------------------------------------------------------
// Encodings
// ---------------------------------------------------------------------------------------------

/// A code and names behind it, as a list of differences holds them.
pub open spec fn named_codes(code: u8, glyphs: Seq<Seq<u8>>) -> Seq<PdfValue> {
    seq![PdfValue::Integer(code as i64)] + glyphs.map_values(|g: Seq<u8>| PdfValue::Name(g))
}

/// Differences count up: behind a code the first name is the glyph of this code, and each name the one of
/// the code behind that of the name before. Names that are not known give no character.
pub proof fn lemma_differences_count_up(
    names: Seq<(Vec<char>, char)>,
    code: u8,
    glyphs: Seq<Seq<u8>>,
    n: int,
    k: int,
)
    requires
        code + glyphs.len() <= 256,
        0 <= k < n <= glyphs.len(),
    ensures
        ({
            let after = differences(names, named_codes(code, glyphs), n + 1);
            let c = glyph_char(names, lossy_text(glyphs[k]));
            let at = (code + k) as u8;
            &&& c is Some ==> after.1.dom().contains(at) && after.1[at] == c->0
            &&& c is None ==> !after.1.dom().contains(at)
        }),
    decreases n,
{
    lemma_differences_so_far(names, code, glyphs, n);
}

proof fn lemma_differences_so_far(
    names: Seq<(Vec<char>, char)>,
    code: u8,
    glyphs: Seq<Seq<u8>>,
    n: int,
)
    requires
        code + glyphs.len() <= 256,
        0 <= n <= glyphs.len(),
    ensures
        ({
            let after = differences(names, named_codes(code, glyphs), n + 1);
            &&& after.0 == (code + n) % 256
            &&& forall|j: u8| #[trigger]
                after.1.dom().contains(j) ==> code <= j < code + n
            &&& forall|k: int|
                0 <= k < n ==> {
                    let c = glyph_char(names, lossy_text(#[trigger] glyphs[k]));
                    let at = (code + k) as u8;
                    &&& c is Some ==> after.1.dom().contains(at) && after.1[at] == c->0
                    &&& c is None ==> !after.1.dom().contains(at)
                }
        }),
    decreases n,
{
    let list = named_codes(code, glyphs);
    if n == 0 {
        reveal_with_fuel(differences, 2);
        assert(list[0] == PdfValue::Integer(code as i64));
    } else {
        lemma_differences_so_far(names, code, glyphs, n - 1);
        assert(list[n] == PdfValue::Name(glyphs[n - 1]));
        assert forall|k: int| 0 <= k < n implies {
            let after = differences(names, list, n + 1);
            let c = glyph_char(names, lossy_text(#[trigger] glyphs[k]));
            let at = (code + k) as u8;
            &&& c is Some ==> after.1.dom().contains(at) && after.1[at] == c->0
            &&& c is None ==> !after.1.dom().contains(at)
        } by {
            assert((code + k) as u8 == code + k);
            assert((code + n - 1) as u8 == code + n - 1);
        }
    }
}

/// The character of a glyph is that of the first entry with its name.
pub proof fn lemma_glyphs_are_found(names: Seq<(Vec<char>, char)>, name: Seq<char>, i: int)
    requires
        0 <= i < names.len(),
        names[i].0@ == name,
        forall|k: int| 0 <= k < i ==> (#[trigger] names[k]).0@ != name,
    ensures
        glyph_char(names, name) == Some(names[i].1),
    decreases names.len(),
{
    if i > 0 {
        assert(names[0].0@ != name);
        let rest = names.skip(1);
        assert(rest[i - 1] == names[i]);
        assert forall|k: int| 0 <= k < i - 1 implies (#[trigger] rest[k]).0@ != name by {
            assert(rest[k] == names[k + 1]);
        }
        lemma_glyphs_are_found(rest, name, i - 1);
    }
}

/// A string in an encoding with differences is read byte by byte: a listed code is its character, another
/// one that is no control code is the character with its number, and a control code is none.
pub proof fn lemma_differing_strings(map: Map<u8, char>, bytes: Seq<u8>, b: u8)
    ensures
        differing_text(map, Seq::<u8>::empty()) == Seq::<char>::empty(),
        map.dom().contains(b) ==> differing_text(map, bytes.push(b)) == differing_text(map, bytes)
            + seq![map[b]],
        !map.dom().contains(b) && b >= 32 ==> differing_text(map, bytes.push(b)) == differing_text(
            map,
            bytes,
        ) + seq![b as char],
        !map.dom().contains(b) && b < 32 ==> differing_text(map, bytes.push(b)) == differing_text(
            map,
            bytes,
        ),
{
    assert(bytes.push(b).drop_last() =~= bytes);
    assert(differing_text(map, bytes) + Seq::<char>::empty() =~= differing_text(map, bytes));
}

// ---------------------------------------------------------------------------------------------
// Texts
// ---------------------------------------------------------------------------------------------

/// A string is read by the first of these that gives a text: the table of the font under `ToUnicode`, the
/// differences of its encoding where they list one of the bytes, its encoding, and the plain reading.
pub proof fn lemma_how_strings_are_read(
    model: FontModel,
    cmaps: FontCMaps,
    objects: Objects,
    font: Seq<char>,
    bytes: Seq<u8>,
    number: u32,
    map: Map<u8, char>,
    own: Entries,
    i: int,
)
    requires
        0 <= i < bytes.len(),
    ensures
        ({
            let r = shown_text(model, cmaps, objects, font, bytes);
            let table = last_named(model.tounicode, font) == Some(number)
                && cmaps.by_obj_num@.dom().contains(number) && cmaps.by_obj_num@[number].decoded(
                bytes,
            ).len() > 0;
            let silent = last_named(model.tounicode, font) is None || (last_named(
                model.tounicode,
                font,
            ) == Some(number) && (!cmaps.by_obj_num@.dom().contains(number)
                || cmaps.by_obj_num@[number].decoded(bytes).len() == 0));
            let listed = last_named(model.differences, font) == Some(map) && map.dom().contains(
                bytes[i],
            );
            let unlisted = last_named(model.differences, font) is None;
            &&& table ==> r == cmaps.by_obj_num@[number].decoded(bytes)
            &&& silent && listed ==> r == differing_text(map, bytes)
            &&& silent && unlisted && last_named(model.encoded, font) == Some(own) && font_text(
                objects,
                own,
                bytes,
            ) is Some ==> r == font_text(objects, own, bytes)->0
            &&& silent && unlisted && last_named(model.encoded, font) is None ==> r == string_text(bytes)
        }),
{
}

} // verus!
