//! Glyph widths of the fonts on a page.

use crate::numbers::{is_nan, low_16, low_8, real_to_u16, to_u16, to_u8, whole_16};
use crate::pdf::{
    dict_get, dictionary_at, dictionary_entries, document_objects, entry, get_object, is_name, key,
    listed_fonts, object_value, object_values, resolve_dict, resolved, shape_of, Entries, Objects,
    PdfValue, Shape,
};
use crate::text::{chars_of, lossy_text, text_from_utf8_lossy};
use crate::tounicode::codes_of;
use std::collections::HashMap;
use vstd::prelude::*;

verus! {

broadcast use vstd::std_specs::hash::group_hash_axioms;

/// How wide a space is.
#[derive(Debug, Clone, Copy, PartialEq, Eq, Structural)]
pub enum SpaceWidth {
    /// So many font units.
    Units(u16),
    /// 45 hundredths of the average width of the glyphs, but at least one font unit: what all the
    /// widths add up to, and how many there are.
    OfAverage(u32, u32),
}

/// What a font unit is in text space.
#[derive(Debug, Clone, Copy, PartialEq, Eq, Structural)]
pub enum UnitsScale {
    /// A thousandth.
    Thousandth,
    /// The absolute value of an integer.
    Integer(i64),
    /// The absolute value of a real number, given by its bits.
    Real(u32),
}

/// The widths of a font's glyphs.
#[derive(Debug, Clone)]
pub struct FontWidthInfo {
    /// The widths by character code, in font units.
    pub widths: HashMap<u16, u16>,
    /// The width of a glyph that is not listed.
    pub default_width: u16,
    /// The width of a space.
    pub space_width: SpaceWidth,
    /// Whether codes are two bytes long.
    pub is_cid: bool,
    /// What a font unit is in text space.
    pub units_scale: UnitsScale,
    /// The writing mode: 0 for horizontal, 1 for vertical.
    pub wmode: u8,
}

/// The contents of a [`FontWidthInfo`].
pub struct Widths {
    pub widths: Map<u16, u16>,
    pub default_width: u16,
    pub space_width: SpaceWidth,
    pub is_cid: bool,
    pub units_scale: UnitsScale,
    pub wmode: u8,
}

impl View for FontWidthInfo {
    type V = Widths;

    open spec fn view(&self) -> Widths {
        Widths {
            widths: self.widths@,
            default_width: self.default_width,
            space_width: self.space_width,
            is_cid: self.is_cid,
            units_scale: self.units_scale,
            wmode: self.wmode,
        }
    }
}

/// The array that a value is, or refers to.
pub open spec fn array_at(objects: Objects, value: PdfValue) -> Option<Seq<PdfValue>> {
    match value {
        PdfValue::Array(items) => Some(items),
        PdfValue::Reference(id) => match resolved(objects, id) {
            Some(PdfValue::Array(items)) => Some(items),
            _ => None,
        },
        _ => None,
    }
}

/// The array that an object is, or refers to.
pub(crate) fn resolve_array<'a>(doc: &'a lopdf::Document, object: &'a lopdf::Object) -> (r: Option<
    &'a Vec<lopdf::Object>,
>)
    ensures
        r is None <==> array_at(document_objects(*doc), object_value(*object)) is None,
        r is Some ==> array_at(document_objects(*doc), object_value(*object)) == Some(
            object_values(r->0@),
        ),
{
    match shape_of(object) {
        Shape::Array(items) => Some(items),
        Shape::Reference(id) => match get_object(doc, id) {
            Some(target) => match shape_of(target) {
                Shape::Array(items) => Some(items),
                _ => None,
            },
            None => None,
        },
        _ => None,
    }
}

/// The 16-bit number that a value is.
pub open spec fn number_16(value: PdfValue) -> Option<u16> {
    match value {
        PdfValue::Integer(i) => Some(low_16(i as int)),
        PdfValue::Real(bits) => Some(whole_16(bits)),
        _ => None,
    }
}

/// The 16-bit number that a value is, or refers to.
pub open spec fn number_16_at(objects: Objects, value: PdfValue) -> Option<u16> {
    match value {
        PdfValue::Reference(id) => match resolved(objects, id) {
            Some(v) => number_16(v),
            None => None,
        },
        _ => number_16(value),
    }
}

/// The 16-bit integer that a value is, or refers to.
pub open spec fn integer_16_at(objects: Objects, value: PdfValue) -> Option<u16> {
    match value {
        PdfValue::Integer(i) => Some(low_16(i as int)),
        PdfValue::Reference(id) => match resolved(objects, id) {
            Some(PdfValue::Integer(i)) => Some(low_16(i as int)),
            _ => None,
        },
        _ => None,
    }
}

/// The 16-bit number that an object is.
fn get_number_16(object: &lopdf::Object) -> (r: Option<u16>)
    ensures
        r == number_16(object_value(*object)),
{
    match shape_of(object) {
        Shape::Integer(i) => Some(to_u16(i)),
        Shape::Real(bits) => Some(real_to_u16(bits)),
        _ => None,
    }
}

/// The 16-bit number that an object is, or refers to.
fn resolve_number_16(doc: &lopdf::Document, object: &lopdf::Object) -> (r: Option<u16>)
    ensures
        r == number_16_at(document_objects(*doc), object_value(*object)),
{
    match shape_of(object) {
        Shape::Reference(id) => match get_object(doc, id) {
            Some(target) => get_number_16(target),
            None => None,
        },
        _ => get_number_16(object),
    }
}

/// The 16-bit integer under a key, or that the value under the key refers to.
pub open spec fn integer_16_under(objects: Objects, entries: Entries, name: Seq<u8>) -> Option<u16> {
    match entry(entries, name) {
        Some(v) => integer_16_at(objects, v),
        None => None,
    }
}

/// The 16-bit integer under a key, or that the value under the key refers to.
fn get_integer_16(doc: &lopdf::Document, dict: &lopdf::Dictionary, name: &str) -> (r: Option<u16>)
    ensures
        r == integer_16_under(document_objects(*doc), dictionary_entries(*dict), key(name)),
{
    match dict_get(dict, name) {
        Some(object) => match shape_of(object) {
            Shape::Integer(i) => Some(to_u16(i)),
            Shape::Reference(id) => match get_object(doc, id) {
                Some(target) => match shape_of(target) {
                    Shape::Integer(i) => Some(to_u16(i)),
                    _ => None,
                },
                None => None,
            },
            _ => None,
        },
        None => None,
    }
}

// ---------------------------------------------------------------------------------------------
// Simple fonts
// ---------------------------------------------------------------------------------------------

/// The widths of the codes from `first` to `last`, as far as the list gives a number for them.
pub open spec fn listed_widths(
    objects: Objects,
    first: u16,
    last: u16,
    list: Seq<PdfValue>,
) -> Map<u16, u16> {
    Map::new(
        |code: u16|
            first <= code <= last && code - first < list.len() && number_16_at(
                objects,
                list[code - first],
            ) is Some,
        |code: u16| number_16_at(objects, list[code - first])->0,
    )
}

/// What the first `n` widths of a list add up to, and how many of them are numbers.
pub open spec fn width_sum(objects: Objects, list: Seq<PdfValue>, n: int) -> (nat, nat)
    decreases n,
{
    if n <= 0 {
        (0, 0)
    } else {
        let before = width_sum(objects, list, n - 1);
        match number_16_at(objects, list[n - 1]) {
            Some(w) => (before.0 + w as nat, before.1 + 1),
            None => before,
        }
    }
}

/// How many widths of a list belong to the codes from `first` to `last`.
pub open spec fn listed_count(first: u16, last: u16, list: Seq<PdfValue>) -> int {
    if last < first {
        0
    } else if list.len() <= last - first + 1 {
        list.len() as int
    } else {
        last - first + 1
    }
}

/// What a font unit is in text space: the first number of the font matrix, if there is one, else a
/// thousandth.
pub open spec fn units_scale_of(objects: Objects, font: Entries) -> UnitsScale {
    match entry(font, key("FontMatrix")) {
        Some(v) => match array_at(objects, v) {
            Some(items) => if items.len() > 0 {
                match items[0] {
                    PdfValue::Real(bits) => UnitsScale::Real(bits),
                    PdfValue::Integer(i) => UnitsScale::Integer(i),
                    _ => UnitsScale::Thousandth,
                }
            } else {
                UnitsScale::Thousandth
            },
            None => UnitsScale::Thousandth,
        },
        None => UnitsScale::Thousandth,
    }
}

/// Whether a font unit is about a thousandth: between 0.0005 and 0.0015 in absolute value. These
/// two numbers have the bits `3A03126F` and `3AC49BA6`; what is no number counts as a thousandth.
pub open spec fn is_standard_scale(scale: UnitsScale) -> bool {
    match scale {
        UnitsScale::Thousandth => true,
        UnitsScale::Integer(_) => false,
        UnitsScale::Real(bits) => is_nan(bits) || 0x3A03126F <= bits % 0x8000_0000 <= 0x3AC49BA6,
    }
}

/// The width of a space: the width of code 32; where that is missing or 0, an estimate.
pub open spec fn simple_space_width(
    widths: Map<u16, u16>,
    sum: (nat, nat),
    scale: UnitsScale,
) -> SpaceWidth {
    if widths.dom().contains(32) && widths[32] > 0 {
        SpaceWidth::Units(widths[32])
    } else if sum.1 > 0 && !is_standard_scale(scale) {
        SpaceWidth::OfAverage(sum.0 as u32, sum.1 as u32)
    } else {
        SpaceWidth::Units(250)
    }
}

/// The widths of a simple font; `None` where the font does not list them.
pub open spec fn simple_widths(objects: Objects, font: Entries) -> Option<Widths> {
    match (
        integer_16_under(objects, font, key("FirstChar")),
        integer_16_under(objects, font, key("LastChar")),
        entry(font, key("Widths")),
    ) {
        (Some(first), Some(last), Some(v)) => match array_at(objects, v) {
            Some(list) => {
                let widths = listed_widths(objects, first, last, list);
                let sum = width_sum(objects, list, listed_count(first, last, list));
                let scale = units_scale_of(objects, font);
                Some(
                    Widths {
                        widths,
                        default_width: 0,
                        space_width: simple_space_width(widths, sum, scale),
                        is_cid: false,
                        units_scale: scale,
                        wmode: 0,
                    },
                )
            },
            None => None,
        },
        _ => None,
    }
}

/// Whether an optional record holds optional widths.
pub open spec fn holds_widths(r: Option<FontWidthInfo>, widths: Option<Widths>) -> bool {
    match r {
        Some(info) => widths == Some(info@),
        None => widths is None,
    }
}

/// Reads what a font unit is in text space.
fn get_units_scale(doc: &lopdf::Document, font: &lopdf::Dictionary) -> (r: UnitsScale)
    ensures
        r == units_scale_of(document_objects(*doc), dictionary_entries(*font)),
{
    match dict_get(font, "FontMatrix") {
        Some(object) => match resolve_array(doc, object) {
            Some(items) => {
                if items.len() > 0 {
                    assert(object_values(items@)[0] == object_value(items@[0]));
                    match shape_of(&items[0]) {
                        Shape::Real(bits) => UnitsScale::Real(bits),
                        Shape::Integer(i) => UnitsScale::Integer(i),
                        _ => UnitsScale::Thousandth,
                    }
                } else {
                    UnitsScale::Thousandth
                }
            },
            None => UnitsScale::Thousandth,
        },
        None => UnitsScale::Thousandth,
    }
}

/// Whether a font unit is about a thousandth.
fn has_standard_scale(scale: &UnitsScale) -> (r: bool)
    ensures
        r == is_standard_scale(*scale),
{
    match scale {
        UnitsScale::Thousandth => true,
        UnitsScale::Integer(_) => false,
        UnitsScale::Real(bits) => {
            let bits: u32 = *bits;
            let size: u32 = bits % 0x8000_0000;
            (bits / 0x80_0000 % 0x100 == 255 && bits % 0x80_0000 > 0) || (0x3A03126F <= size
                && size <= 0x3AC49BA6)
        },
    }
}

/// Reads the widths of a simple font: those that it lists for the codes from `FirstChar` to
/// `LastChar`.
pub fn parse_simple_font_widths(doc: &lopdf::Document, font_dict: &lopdf::Dictionary) -> (r: Option<
    FontWidthInfo,
>)
    ensures
        holds_widths(r, simple_widths(document_objects(*doc), dictionary_entries(*font_dict))),
{
    let ghost objects = document_objects(*doc);
    let first: u16 = match get_integer_16(doc, font_dict, "FirstChar") {
        Some(n) => n,
        None => {
            return None;
        },
    };
    let last: u16 = match get_integer_16(doc, font_dict, "LastChar") {
        Some(n) => n,
        None => {
            return None;
        },
    };
    let array = match dict_get(font_dict, "Widths") {
        Some(object) => match resolve_array(doc, object) {
            Some(items) => items,
            None => {
                return None;
            },
        },
        None => {
            return None;
        },
    };
    let ghost list = object_values(array@);
    let mut widths: HashMap<u16, u16> = HashMap::new();
    let mut total: u32 = 0;
    let mut count: u32 = 0;
    let end: usize = if last < first {
        0
    } else {
        let room: usize = (last - first) as usize + 1;
        if array.len() <= room {
            array.len()
        } else {
            room
        }
    };
    assert(end == listed_count(first, last, list));
    let mut i: usize = 0;
    while i < end
        invariant
            i <= end <= array@.len(),
            end <= 0x1_0000,
            end > 0 ==> first + end - 1 <= last,
            objects == document_objects(*doc),
            list == object_values(array@),
            total == width_sum(objects, list, i as int).0,
            count == width_sum(objects, list, i as int).1,
            total <= i * 0xFFFF,
            count <= i,
            forall|code: u16| #[trigger]
                widths@.dom().contains(code) <==> first <= code && code - first < i && number_16_at(
                    objects,
                    list[code - first],
                ) is Some,
            forall|code: u16| #[trigger]
                widths@.dom().contains(code) ==> widths@[code] == number_16_at(
                    objects,
                    list[code - first],
                )->0,
        decreases end - i,
    {
        let code: u16 = first + i as u16;
        assert(list[i as int] == object_value(array@[i as int]));
        match resolve_number_16(doc, &array[i]) {
            Some(w) => {
                widths.insert(code, w);
                total = total + w as u32;
                count = count + 1;
            },
            None => {},
        }
        i = i + 1;
    }
    let units_scale = get_units_scale(doc, font_dict);
    assert(widths@ =~= listed_widths(objects, first, last, list));
    let listed: u16 = match widths.get(&32) {
        Some(w) => *w,
        None => 0,
    };
    let space_width = if listed > 0 {
        SpaceWidth::Units(listed)
    } else if count > 0 && !has_standard_scale(&units_scale) {
        SpaceWidth::OfAverage(total, count)
    } else {
        SpaceWidth::Units(250)
    };
    Some(
        FontWidthInfo {
            widths,
            default_width: 0,
            space_width,
            is_cid: false,
            units_scale,
            wmode: 0,
        },
    )
}

// ---------------------------------------------------------------------------------------------
// Composite fonts
// ---------------------------------------------------------------------------------------------

/// The widths with the first `n` numbers of a list entered for consecutive codes from `start` on.
/// Codes that do not fit in 16 bits are left out.
pub open spec fn with_run(
    widths: Map<u16, u16>,
    start: u16,
    list: Seq<PdfValue>,
    n: int,
) -> Map<u16, u16>
    decreases n,
{
    if n <= 0 {
        widths
    } else {
        let before = with_run(widths, start, list, n - 1);
        match number_16(list[n - 1]) {
            Some(w) => if start + n - 1 <= 0xFFFF {
                before.insert((start + n - 1) as u16, w)
            } else {
                before
            },
            None => before,
        }
    }
}

/// The widths with one width entered for all codes from `start` to `end`.
pub open spec fn with_same(widths: Map<u16, u16>, start: u16, end: u16, w: u16) -> Map<u16, u16> {
    Map::new(
        |code: u16| widths.dom().contains(code) || start <= code <= end,
        |code: u16|
            if start <= code <= end {
                w
            } else {
                widths[code]
            },
    )
}

/// The widths after the rest, from `i` on, of a composite font's list. An entry of the list is a
/// code followed by an array of widths for it and the codes behind it, or a first code, a last
/// code, and one width for all of them. What fits neither is passed over.
pub open spec fn after_width_list(
    objects: Objects,
    list: Seq<PdfValue>,
    i: int,
    widths: Map<u16, u16>,
) -> Map<u16, u16>
    decreases list.len() - i,
{
    if i < 0 || i >= list.len() {
        widths
    } else {
        match number_16(list[i]) {
            None => after_width_list(objects, list, i + 1, widths),
            Some(start) => if i + 1 >= list.len() {
                widths
            } else {
                match list[i + 1] {
                    PdfValue::Array(items) => after_width_list(
                        objects,
                        list,
                        i + 2,
                        with_run(widths, start, items, items.len() as int),
                    ),
                    PdfValue::Reference(_) => match array_at(objects, list[i + 1]) {
                        Some(items) => after_width_list(
                            objects,
                            list,
                            i + 2,
                            with_run(widths, start, items, items.len() as int),
                        ),
                        None => after_width_list(objects, list, i + 2, widths),
                    },
                    PdfValue::Integer(_) | PdfValue::Real(_) => if i + 2 >= list.len() {
                        widths
                    } else {
                        match number_16(list[i + 2]) {
                            Some(w) => after_width_list(
                                objects,
                                list,
                                i + 3,
                                with_same(widths, start, number_16(list[i + 1])->0, w),
                            ),
                            None => after_width_list(objects, list, i + 3, widths),
                        }
                    },
                    _ => after_width_list(objects, list, i + 2, widths),
                }
            },
        }
    }
}

/// Enters the widths of a list for consecutive codes.
fn insert_run(widths: &mut HashMap<u16, u16>, start: u16, array: &Vec<lopdf::Object>)
    ensures
        final(widths)@ == with_run(
            old(widths)@,
            start,
            object_values(array@),
            array@.len() as int,
        ),
{
    let ghost list = object_values(array@);
    let ghost before = widths@;
    let mut j: usize = 0;
    while j < array.len()
        invariant
            j <= array@.len(),
            list == object_values(array@),
            widths@ == with_run(before, start, list, j as int),
        decreases array@.len() - j,
    {
        assert(list[j as int] == object_value(array@[j as int]));
        match get_number_16(&array[j]) {
            Some(w) => {
                if j <= 0xFFFF - start as usize {
                    widths.insert(start + j as u16, w);
                }
            },
            None => {},
        }
        j = j + 1;
    }
}

/// Enters one width for all codes from `start` to `end`.
fn insert_same(widths: &mut HashMap<u16, u16>, start: u16, end: u16, w: u16)
    ensures
        final(widths)@ == with_same(old(widths)@, start, end, w),
{
    let ghost before = widths@;
    if end < start {
        assert(widths@ =~= with_same(before, start, end, w));
        return ;
    }
    let mut code: u16 = start;
    widths.insert(code, w);
    assert(widths@ =~= with_same(before, start, code, w));
    while code < end
        invariant
            start <= code <= end,
            widths@ == with_same(before, start, code, w),
        decreases end - code,
    {
        code = code + 1;
        widths.insert(code, w);
        assert(widths@ =~= with_same(before, start, code, w));
    }
}

/// Reads the width list of a composite font.
pub fn parse_cid_w_array(
    doc: &lopdf::Document,
    w_array: &Vec<lopdf::Object>,
    widths: &mut HashMap<u16, u16>,
)
    ensures
        final(widths)@ == after_width_list(
            document_objects(*doc),
            object_values(w_array@),
            0,
            old(widths)@,
        ),
{
    let ghost objects = document_objects(*doc);
    let ghost list = object_values(w_array@);
    let ghost before = widths@;
    let n: usize = w_array.len();
    let mut i: usize = 0;
    while i < n
        invariant
            i <= n == w_array@.len(),
            objects == document_objects(*doc),
            list == object_values(w_array@),
            before == old(widths)@,
            after_width_list(objects, list, i as int, widths@) == after_width_list(
                objects,
                list,
                0,
                before,
            ),
        decreases n - i,
    {
        assert forall|k: int| 0 <= k < n implies #[trigger] list[k] == object_value(w_array@[k]) by {
        }
        let start: u16 = match get_number_16(&w_array[i]) {
            Some(c) => c,
            None => {
                i = i + 1;
                continue;
            },
        };
        let left: usize = n - i;
        if left <= 1 {
            return ;
        }
        match shape_of(&w_array[i + 1]) {
            Shape::Array(items) => {
                insert_run(widths, start, items);
                i = i + 2;
            },
            Shape::Reference(_) => {
                match resolve_array(doc, &w_array[i + 1]) {
                    Some(items) => {
                        insert_run(widths, start, items);
                    },
                    None => {},
                }
                i = i + 2;
            },
            Shape::Integer(_) | Shape::Real(_) => {
                if left <= 2 {
                    return ;
                }
                match (get_number_16(&w_array[i + 1]), get_number_16(&w_array[i + 2])) {
                    (Some(end), Some(w)) => {
                        insert_same(widths, start, end, w);
                    },
                    _ => {},
                }
                i = i + 3;
            },
            _ => {
                i = i + 2;
            },
        }
    }
}

/// The width of a glyph that a composite font does not list: 1000 where the font does not say.
pub open spec fn default_width_of(cid_font: Entries) -> u16 {
    match entry(cid_font, key("DW")) {
        Some(v) => match number_16(v) {
            Some(w) => w,
            None => 1000,
        },
        None => 1000,
    }
}

/// The widths that a composite font lists.
pub open spec fn composite_listed(objects: Objects, cid_font: Entries) -> Map<u16, u16> {
    match entry(cid_font, key("W")) {
        Some(v) => match array_at(objects, v) {
            Some(list) => after_width_list(objects, list, 0, Map::empty()),
            None => Map::empty(),
        },
        None => Map::empty(),
    }
}

/// The width of a space in a composite font: that of code 32 or code 3, else a quarter of the
/// default width.
pub open spec fn composite_space_width(widths: Map<u16, u16>, default_width: u16) -> u16 {
    if widths.dom().contains(32) {
        widths[32]
    } else if widths.dom().contains(3) {
        widths[3]
    } else if default_width > 0 {
        default_width / 4
    } else {
        250
    }
}

/// The writing mode of a font.
pub open spec fn writing_mode(font: Entries) -> u8 {
    match entry(font, key("WMode")) {
        Some(PdfValue::Integer(i)) => low_8(i as int),
        _ => 0,
    }
}

/// The widths of a composite font; `None` where it has no descendant font.
pub open spec fn composite_widths(objects: Objects, font: Entries) -> Option<Widths> {
    match entry(font, key("DescendantFonts")) {
        Some(v) => match array_at(objects, v) {
            Some(fonts) => if fonts.len() == 0 {
                None
            } else {
                match dictionary_at(objects, fonts[0]) {
                    Some(cid_font) => {
                        let widths = composite_listed(objects, cid_font);
                        Some(
                            Widths {
                                widths,
                                default_width: default_width_of(cid_font),
                                space_width: SpaceWidth::Units(
                                    composite_space_width(widths, default_width_of(cid_font)),
                                ),
                                is_cid: true,
                                units_scale: UnitsScale::Thousandth,
                                wmode: writing_mode(font),
                            },
                        )
                    },
                    None => None,
                }
            },
            None => None,
        },
        None => None,
    }
}

/// Reads the widths of a composite font from its first descendant.
pub fn parse_type0_widths(doc: &lopdf::Document, font_dict: &lopdf::Dictionary) -> (r: Option<
    FontWidthInfo,
>)
    ensures
        holds_widths(r, composite_widths(document_objects(*doc), dictionary_entries(*font_dict))),
{
    let fonts = match dict_get(font_dict, "DescendantFonts") {
        Some(object) => match resolve_array(doc, object) {
            Some(items) => items,
            None => {
                return None;
            },
        },
        None => {
            return None;
        },
    };
    if fonts.len() == 0 {
        return None;
    }
    assert(object_values(fonts@)[0] == object_value(fonts@[0]));
    let cid_font = match resolve_dict(doc, &fonts[0]) {
        Some(d) => d,
        None => {
            return None;
        },
    };
    let default_width: u16 = match dict_get(cid_font, "DW") {
        Some(object) => match get_number_16(object) {
            Some(w) => w,
            None => 1000,
        },
        None => 1000,
    };
    let mut widths: HashMap<u16, u16> = HashMap::new();
    match dict_get(cid_font, "W") {
        Some(object) => match resolve_array(doc, object) {
            Some(items) => {
                parse_cid_w_array(doc, items, &mut widths);
            },
            None => {},
        },
        None => {},
    }
    let space_width: u16 = match widths.get(&32) {
        Some(w) => *w,
        None => match widths.get(&3) {
            Some(w) => *w,
            None => if default_width > 0 {
                default_width / 4
            } else {
                250
            },
        },
    };
    let wmode: u8 = match dict_get(font_dict, "WMode") {
        Some(object) => match shape_of(object) {
            Shape::Integer(i) => to_u8(i),
            _ => 0,
        },
        None => 0,
    };
    Some(
        FontWidthInfo {
            widths,
            default_width,
            space_width: SpaceWidth::Units(space_width),
            is_cid: true,
            units_scale: UnitsScale::Thousandth,
            wmode,
        },
    )
}

// ---------------------------------------------------------------------------------------------
// All fonts
// ---------------------------------------------------------------------------------------------

/// The widths of a font, by its kind.
pub open spec fn font_widths(objects: Objects, font: Entries) -> Option<Widths> {
    match entry(font, key("Subtype")) {
        Some(PdfValue::Name(kind)) => if kind == key("Type0") {
            composite_widths(objects, font)
        } else if kind == key("Type1") || kind == key("TrueType") || kind == key("MMType1") || kind
            == key("Type3") {
            simple_widths(objects, font)
        } else {
            None
        },
        _ => None,
    }
}

/// Reads the widths of a font.
pub fn parse_font_widths(doc: &lopdf::Document, font_dict: &lopdf::Dictionary) -> (r: Option<
    FontWidthInfo,
>)
    ensures
        holds_widths(r, font_widths(document_objects(*doc), dictionary_entries(*font_dict))),
{
    let object = match dict_get(font_dict, "Subtype") {
        Some(o) => o,
        None => {
            return None;
        },
    };
    match shape_of(object) {
        Shape::Name(kind) => {
            let kind = kind.as_slice();
            if is_name(kind, "Type0") {
                parse_type0_widths(doc, font_dict)
            } else if is_name(kind, "Type1") || is_name(kind, "TrueType") || is_name(
                kind,
                "MMType1",
            ) || is_name(kind, "Type3") {
                parse_simple_font_widths(doc, font_dict)
            } else {
                None
            }
        },
        _ => None,
    }
}

/// The widths of the first `n` fonts of a page that have any, each with the name of its font.
pub open spec fn page_widths(
    objects: Objects,
    fonts: Seq<(Seq<u8>, Entries)>,
    n: int,
) -> Seq<(Seq<char>, Widths)>
    decreases n,
{
    if n <= 0 {
        seq![]
    } else {
        let before = page_widths(objects, fonts, n - 1);
        match font_widths(objects, fonts[n - 1].1) {
            Some(widths) => before.push((lossy_text(fonts[n - 1].0), widths)),
            None => before,
        }
    }
}

/// A list of widths as it is held, as plain contents.
pub open spec fn width_contents(list: Seq<(Vec<char>, FontWidthInfo)>) -> Seq<
    (Seq<char>, Widths),
> {
    list.map_values(|e: (Vec<char>, FontWidthInfo)| (e.0@, e.1@))
}

/// Reads the widths of all fonts of a page.
pub fn build_font_widths(
    doc: &lopdf::Document,
    fonts: &Vec<(Vec<u8>, &lopdf::Dictionary)>,
) -> (r: Vec<(Vec<char>, FontWidthInfo)>)
    ensures
        width_contents(r@) == page_widths(
            document_objects(*doc),
            listed_fonts(fonts@),
            fonts@.len() as int,
        ),
{
    let ghost objects = document_objects(*doc);
    let ghost all = listed_fonts(fonts@);
    let mut out: Vec<(Vec<char>, FontWidthInfo)> = Vec::new();
    let mut i: usize = 0;
    assert(width_contents(out@) =~= seq![]);
    while i < fonts.len()
        invariant
            i <= fonts@.len(),
            objects == document_objects(*doc),
            all == listed_fonts(fonts@),
            width_contents(out@) == page_widths(objects, all, i as int),
        decreases fonts@.len() - i,
    {
        let ghost before = width_contents(out@);
        let font = fonts[i].1;
        assert(all[i as int] == (fonts@[i as int].0@, dictionary_entries(*font)));
        match parse_font_widths(doc, font) {
            Some(info) => {
                let name = chars_of(text_from_utf8_lossy(fonts[i].0.as_slice()).as_str());
                let ghost added = (name@, info@);
                out.push((name, info));
                assert(width_contents(out@) =~= before.push(added));
            },
            None => {},
        }
        i = i + 1;
    }
    out
}

// ---------------------------------------------------------------------------------------------
// Width of a string
// ---------------------------------------------------------------------------------------------

impl Widths {
    /// The width of the glyph for a code.
    pub open spec fn width_of(self, code: u16) -> u16 {
        if self.widths.dom().contains(code) {
            self.widths[code]
        } else {
            self.default_width
        }
    }

    /// What the glyphs for a row of codes add up to.
    pub open spec fn total(self, codes: Seq<u16>) -> nat
        decreases codes.len(),
    {
        if codes.len() == 0 {
            0
        } else {
            self.total(codes.drop_last()) + self.width_of(codes.last()) as nat
        }
    }

    /// Text set piece by piece is as wide as text set at once.
    pub proof fn lemma_total_concat(self, a: Seq<u16>, b: Seq<u16>)
        ensures
            self.total(a + b) == self.total(a) + self.total(b),
        decreases b.len(),
    {
        if b.len() == 0 {
            assert(a + b =~= a);
        } else {
            self.lemma_total_concat(a, b.drop_last());
            assert((a + b).drop_last() =~= a + b.drop_last());
            assert((a + b).last() == b.last());
        }
    }
}

/// The width of a string in font units: what its glyphs add up to, as far as 64 bits go.
pub fn string_width_units(bytes: &[u8], font_info: &FontWidthInfo) -> (r: u64)
    ensures
        ({
            let codes = codes_of(
                bytes@,
                if font_info.is_cid {
                    2u8
                } else {
                    1u8
                },
            );
            r == if font_info@.total(codes) <= u64::MAX {
                font_info@.total(codes)
            } else {
                u64::MAX as nat
            }
        }),
{
    let len: usize = bytes.len();
    let n: usize = if font_info.is_cid {
        len / 2
    } else {
        len
    };
    let ghost codes = codes_of(
        bytes@,
        if font_info.is_cid {
            2u8
        } else {
            1u8
        },
    );
    let mut total: u64 = 0;
    let mut i: usize = 0;
    assert(codes.take(0) =~= seq![]);
    while i < n
        invariant
            len == bytes@.len(),
            i <= n == codes.len(),
            font_info.is_cid ==> n == len / 2 && codes == codes_of(bytes@, 2),
            !font_info.is_cid ==> n == len && codes == codes_of(bytes@, 1),
            total == if font_info@.total(codes.take(i as int)) <= u64::MAX {
                font_info@.total(codes.take(i as int))
            } else {
                u64::MAX as nat
            },
        decreases n - i,
    {
        let code: u16 = if font_info.is_cid {
            bytes[2 * i] as u16 * 256 + bytes[2 * i + 1] as u16
        } else {
            bytes[i] as u16
        };
        assert(code == codes[i as int]);
        let w: u16 = match font_info.widths.get(&code) {
            Some(w) => *w,
            None => font_info.default_width,
        };
        assert(codes.take(i + 1).drop_last() =~= codes.take(i as int));
        assert(codes.take(i + 1).last() == code);
        total = total.saturating_add(w as u64);
        i = i + 1;
    }
    assert(codes.take(i as int) =~= codes);
    total
}

} // verus!
