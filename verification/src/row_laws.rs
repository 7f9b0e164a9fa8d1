//! What a row of strings and numbers shows: laws on the gaps between its texts.

use crate::content::{row_segments, row_text, show_row, Pen, Setting, StepModel};
use crate::numbers::{exponent_bits, fraction_bits, is_nan, pow2, whole_part, Number};
use crate::page_fonts::last_named;
use crate::pdf::PdfValue;
use crate::text::{
    is_space, lemma_space_end, lemma_text_end, space_end, text_end, trimmed, trimmed_start,
};
use crate::text_utils::{is_bold_name, is_italic_name, lowercase_text, without_ligatures};
use crate::widths::Widths;
use vstd::prelude::*;

verus! {

// ---------------------------------------------------------------------------------------------
// Gaps
// ---------------------------------------------------------------------------------------------

/// In a font without widths a number below -120 is a space, and one below -480 a gap between columns.
pub proof fn lemma_gaps_of_fonts_without_widths(setting: Setting, font: Seq<char>, i: i64, bits: u32)
    requires
        last_named(setting.gaps, font) is None,
        !is_nan(bits),
    ensures
        Number::Integer(i).is_below_minus(setting.gaps_of(font).0) <==> i < -120,
        Number::Integer(i).is_below_minus(setting.gaps_of(font).1) <==> i < -480,
        Number::Real(bits).is_below_minus(setting.gaps_of(font).0) <==> bits > 0xC2F0_0000,
        Number::Real(bits).is_below_minus(setting.gaps_of(font).1) <==> bits > 0xC3F0_0000,
{
    reveal_with_fuel(pow2, 20);
    assert(exponent_bits(0x42F0_0000) == 133 && fraction_bits(0x42F0_0000) == 0x70_0000);
    assert(exponent_bits(0x43F0_0000) == 135 && fraction_bits(0x43F0_0000) == 0x70_0000);
    assert(pow2(17) == 131072);
    assert(pow2(15) == 32768);
    assert(whole_part(0x42F0_0000) == (0x80_0000nat + 0x70_0000nat) / pow2(17));
    assert(whole_part(0x43F0_0000) == (0x80_0000nat + 0x70_0000nat) / pow2(15));
    assert((0x80_0000nat + 0x70_0000nat) / 131072nat == 120);
    assert((0x80_0000nat + 0x70_0000nat) / 32768nat == 480);
}

/// Whether the text of a string is a word: it does not start or end with white space.
pub open spec fn is_word(text: Seq<char>) -> bool {
    text.len() > 0 && !is_space(text.first()) && !is_space(text.last())
}

proof fn lemma_not_blank(text: Seq<char>)
    requires
        text.len() > 0,
        !is_space(text.first()),
    ensures
        trimmed(text).len() > 0,
{
    assert(space_end(text, 0) == 0);
    assert(trimmed_start(text) =~= text);
    lemma_end_behind(text, text.len() as int, 0);
}

proof fn lemma_end_behind(s: Seq<char>, n: int, p: int)
    requires
        0 <= p < n <= s.len(),
        !is_space(s[p]),
    ensures
        p < text_end(s, n) <= n,
    decreases n,
{
    lemma_text_end(s, n);
    if is_space(s[n - 1]) {
        lemma_end_behind(s, n - 1, p);
    }
}

/// Two strings with a number between them are one text, with a space between them where the gap is wide
/// enough for one; where it is that of columns they are two texts, each with the place of its string.
pub proof fn lemma_gaps_part_strings(
    setting: Setting,
    font: Seq<char>,
    a: Seq<u8>,
    b: Seq<u8>,
    number: Number,
)
    requires
        is_word(setting.text_of(font, a)),
        is_word(setting.text_of(font, b)),
    ensures
        ({
            let between = match number {
                Number::Integer(i) => PdfValue::Integer(i),
                Number::Real(bits) => PdfValue::Real(bits),
            };
            let segments = row_segments(
                setting,
                font,
                seq![PdfValue::Text(a), between, PdfValue::Text(b)],
            );
            let x = setting.text_of(font, a);
            let y = setting.text_of(font, b);
            let space = number.is_below_minus(setting.gaps_of(font).0);
            let wide = number.is_below_minus(setting.gaps_of(font).1);
            &&& wide ==> segments == seq![(x, 0int, 1int), (y, 2int, 3int)]
            &&& !wide && space ==> segments == seq![(x + seq![' '] + y, 0int, 3int)]
            &&& !wide && !space ==> segments == seq![(x + y, 0int, 3int)]
        }),
{
    let between = match number {
        Number::Integer(i) => PdfValue::Integer(i),
        Number::Real(bits) => PdfValue::Real(bits),
    };
    let row = seq![PdfValue::Text(a), between, PdfValue::Text(b)];
    let x = setting.text_of(font, a);
    let y = setting.text_of(font, b);
    let space = number.is_below_minus(setting.gaps_of(font).0);
    let wide = number.is_below_minus(setting.gaps_of(font).1);
    reveal_with_fuel(row_text, 4);
    let one = row_text(setting, font, row, 1);
    assert(one.text =~= x);
    assert(one.done =~= seq![]);
    let two = row_text(setting, font, row, 2);
    let three = row_text(setting, font, row, 3);
    lemma_not_blank(y);
    lemma_not_blank(x + y);
    lemma_not_blank(x + seq![' '] + y);
    assert((x + y).first() == x.first());
    assert((x + seq![' '] + y).first() == x.first());
    if wide {
        assert(two.done =~= seq![(x, 0int, 1int)]);
        assert(three.text =~= y);
        assert(row_segments(setting, font, row) =~= seq![(x, 0int, 1int), (y, 2int, 3int)]);
    } else if space {
        assert(x.last() != ' ');
        assert(two.text =~= x + seq![' ']);
        assert(three.text =~= x + seq![' '] + y);
        assert(row_segments(setting, font, row) =~= seq![(x + seq![' '] + y, 0int, 3int)]);
    } else {
        assert(three.text =~= x + y);
        assert(row_segments(setting, font, row) =~= seq![(x + y, 0int, 3int)]);
    }
}

// ---------------------------------------------------------------------------------------------
// Nothing is lost
// ---------------------------------------------------------------------------------------------

/// A text without its white space.
pub open spec fn squeezed(s: Seq<char>) -> Seq<char>
    decreases s.len(),
{
    if s.len() == 0 {
        seq![]
    } else if is_space(s.last()) {
        squeezed(s.drop_last())
    } else {
        squeezed(s.drop_last()).push(s.last())
    }
}

/// The texts of the first `n` strings of a row, one behind the other.
pub open spec fn strings_of(setting: Setting, font: Seq<char>, row: Seq<PdfValue>, n: int) -> Seq<char>
    decreases n,
{
    if n <= 0 {
        seq![]
    } else {
        strings_of(setting, font, row, n - 1) + match row[n - 1] {
            PdfValue::Text(bytes) => setting.text_of(font, bytes),
            _ => seq![],
        }
    }
}

/// The texts of segments, one behind the other.
pub open spec fn texts_of(segments: Seq<(Seq<char>, int, int)>) -> Seq<char>
    decreases segments.len(),
{
    if segments.len() == 0 {
        seq![]
    } else {
        texts_of(segments.drop_last()) + segments.last().0
    }
}

proof fn lemma_squeezed_add(a: Seq<char>, b: Seq<char>)
    ensures
        squeezed(a + b) == squeezed(a) + squeezed(b),
    decreases b.len(),
{
    if b.len() == 0 {
        assert(a + b =~= a);
        assert(squeezed(a) + squeezed(b) =~= squeezed(a));
    } else {
        lemma_squeezed_add(a, b.drop_last());
        assert((a + b).drop_last() =~= a + b.drop_last());
        assert((a + b).last() == b.last());
        assert(squeezed(a + b) =~= squeezed(a) + squeezed(b));
    }
}

proof fn lemma_blank_is_space(s: Seq<char>, n: int)
    requires
        trimmed(s).len() == 0,
        0 <= n <= s.len(),
    ensures
        squeezed(s.take(n)).len() == 0,
    decreases n,
{
    if n > 0 {
        lemma_blank_is_space(s, n - 1);
        assert(s.take(n).drop_last() =~= s.take(n - 1));
        if !is_space(s[n - 1]) {
            lemma_space_end(s, 0);
            let a = space_end(s, 0);
            let t = trimmed_start(s);
            assert(t.len() == s.len() - a);
            assert(a < s.len()) by {
                if a >= s.len() {
                    assert(is_space(s[n - 1]));
                }
            }
            assert(t[0] == s[a]);
            lemma_end_behind(t, t.len() as int, 0);
        }
    }
}

proof fn lemma_texts_of_push(segments: Seq<(Seq<char>, int, int)>, s: (Seq<char>, int, int))
    ensures
        texts_of(segments.push(s)) == texts_of(segments) + s.0,
{
    assert(segments.push(s).drop_last() =~= segments);
}

proof fn lemma_rows_so_far(setting: Setting, font: Seq<char>, row: Seq<PdfValue>, n: int)
    requires
        0 <= n,
    ensures
        ({
            let r = row_text(setting, font, row, n);
            squeezed(texts_of(r.done) + r.text) == squeezed(strings_of(setting, font, row, n))
        }),
    decreases n,
{
    if n == 0 {
        let none = Seq::<char>::empty();
        assert(none + none =~= none);
    } else {
        lemma_rows_so_far(setting, font, row, n - 1);
        let before = row_text(setting, font, row, n - 1);
        let after = row_text(setting, font, row, n);
        let strings = strings_of(setting, font, row, n - 1);
        let so_far = texts_of(before.done) + before.text;
        match row[n - 1] {
            PdfValue::Text(bytes) => {
                let t = setting.text_of(font, bytes);
                assert(texts_of(after.done) + after.text =~= so_far + t);
                lemma_squeezed_add(so_far, t);
                lemma_squeezed_add(strings, t);
            },
            PdfValue::Integer(_) | PdfValue::Real(_) => {
                assert(strings_of(setting, font, row, n) =~= strings);
                if after.done != before.done {
                    lemma_texts_of_push(before.done, (before.text, before.start, n - 1));
                    assert(texts_of(after.done) + after.text =~= so_far);
                } else if after.text != before.text {
                    assert(texts_of(after.done) + after.text =~= so_far.push(' '));
                    assert(so_far.push(' ').drop_last() =~= so_far);
                }
            },
            _ => {
                assert(strings_of(setting, font, row, n) =~= strings);
            },
        }
    }
}

/// No string of a row is lost and none is doubled: but for white space, the texts that a row shows are
/// those of its strings, in order.
pub proof fn lemma_rows_lose_nothing(setting: Setting, font: Seq<char>, row: Seq<PdfValue>)
    ensures
        squeezed(texts_of(row_segments(setting, font, row))) == squeezed(
            strings_of(setting, font, row, row.len() as int),
        ),
{
    let n = row.len() as int;
    let end = row_text(setting, font, row, n);
    lemma_rows_so_far(setting, font, row, n);
    lemma_squeezed_add(texts_of(end.done), end.text);
    if crate::content::is_blank(end.text) {
        lemma_blank_is_space(end.text, end.text.len() as int);
        assert(end.text.take(end.text.len() as int) =~= end.text);
        assert(squeezed(texts_of(end.done)) + squeezed(end.text) =~= squeezed(texts_of(end.done)));
    } else {
        lemma_texts_of_push(end.done, (end.text, end.start, n));
    }
}

/// The texts that a row shows are in its font, with their ligatures taken apart, and at their places; a
/// row that cannot be seen shows none.
pub proof fn lemma_rows_are_shown(setting: Setting, pen: Pen, row: Seq<PdfValue>, k: int)
    requires
        0 <= k < row_segments(setting, pen.font, row).len(),
        !pen.is_silent(),
    ensures
        show_row(setting, pen, PdfValue::Array(row)).len() == 1,
        ({
            let own = row_segments(setting, pen.font, row)[k];
            match show_row(setting, pen, PdfValue::Array(row))[0] {
                StepModel::ShowRow(pieces, shown, measured) => shown.len() == row_segments(
                    setting,
                    pen.font,
                    row,
                ).len() && shown[k].0.text == without_ligatures(own.0) && shown[k].0.font == pen.font
                    && shown[k].1 == own.1 && shown[k].2 == own.2,
                _ => false,
            }
        }),
{
}

// ---------------------------------------------------------------------------------------------
// Style and width
// ---------------------------------------------------------------------------------------------

/// A text has the style that the base name of its font tells, in whatever case it is written; a font
/// without a base name goes by its own name.
pub proof fn lemma_texts_have_the_style_of_their_font(
    setting: Setting,
    font: Seq<char>,
    base: Seq<char>,
    text: Seq<char>,
)
    ensures
        setting.styled(font, text).text == text,
        setting.styled(font, text).font == font,
        last_named(setting.fonts.base_names, font) == Some(base) ==> setting.styled(font, text).is_bold
            == is_bold_name(lowercase_text(base)) && setting.styled(font, text).is_italic
            == is_italic_name(lowercase_text(base)),
        last_named(setting.fonts.base_names, font) is None ==> setting.styled(font, text).is_bold
            == is_bold_name(lowercase_text(font)) && setting.styled(font, text).is_italic
            == is_italic_name(lowercase_text(font)),
{
}

/// A string is as wide as its codes: of one byte each in a simple font, of two in a composite one. Without
/// widths nothing is known of it.
pub proof fn lemma_strings_are_as_wide_as_their_codes(
    setting: Setting,
    font: Seq<char>,
    widths: Widths,
    a: u8,
    b: u8,
)
    requires
        last_named(setting.fonts.widths, font) == Some(widths),
    ensures
        ({
            let run = setting.run_of(font, seq![a, b]);
            &&& run is Some
            &&& run->0.scale == widths.units_scale
            &&& !widths.is_cid ==> run->0.units == widths.width_of(a as u16) + widths.width_of(b as u16)
            &&& widths.is_cid ==> run->0.units == widths.width_of((a * 256 + b) as u16)
        }),
{
    crate::font_laws::lemma_widths_add_up(widths, seq![], 0, a, b);
}

} // verus!
