//! The fonts of a page or a form, and what they make of the strings that are shown in them.

use crate::encodings::{
    build_font_encodings, encoding_contents, page_differences, same_text, GlyphNames,
};
use crate::font_cmaps::FontCMaps;
use crate::limits::{decode_font_text, find_encoding, font_text, has_encoding, is_encoding_of};
use crate::pdf::{
    dict_get, dictionary_entries, document_objects, entry, key, listed_fonts, shape_of, Entries,
    Objects, PdfValue, Shape,
};
use crate::text::{chars_of, lossy_text, text_from_utf8_lossy};
use crate::text_utils::{decode_text_string, string_text};
use crate::widths::{build_font_widths, page_widths, width_contents, FontWidthInfo, Widths};
use std::collections::HashMap;
use vstd::prelude::*;

verus! {

broadcast use vstd::std_specs::hash::group_hash_axioms;

/// The value of the last entry with the given name.
pub open spec fn last_named<T>(list: Seq<(Seq<char>, T)>, name: Seq<char>) -> Option<T>
    decreases list.len(),
{
    if list.len() == 0 {
        None
    } else if list.last().0 == name {
        Some(list.last().1)
    } else {
        last_named(list.drop_last(), name)
    }
}

pub proof fn lemma_last_named<T>(list: Seq<(Seq<char>, T)>, name: Seq<char>, i: int)
    requires
        0 <= i < list.len(),
        list[i].0 == name,
        forall|k: int| i < k < list.len() ==> (#[trigger] list[k]).0 != name,
    ensures
        last_named(list, name) == Some(list[i].1),
    decreases list.len(),
{
    if i < list.len() - 1 {
        assert(list[list.len() - 1].0 != name);
        lemma_last_named(list.drop_last(), name, i);
    }
}

pub proof fn lemma_none_named<T>(list: Seq<(Seq<char>, T)>, name: Seq<char>)
    requires
        forall|k: int| 0 <= k < list.len() ==> (#[trigger] list[k]).0 != name,
    ensures
        last_named(list, name) is None,
    decreases list.len(),
{
    if list.len() > 0 {
        assert(list[list.len() - 1].0 != name);
        lemma_none_named(list.drop_last(), name);
    }
}

/// The position of the last entry with the given name.
pub(crate) fn find_named<T>(list: &Vec<(Vec<char>, T)>, name: &[char]) -> (r: Option<usize>)
    ensures
        r matches Some(i) ==> i < list@.len() && list@[i as int].0@ == name@ && forall|k: int|
            i < k < list@.len() ==> (#[trigger] list@[k]).0@ != name@,
        r is None ==> forall|k: int| 0 <= k < list@.len() ==> (#[trigger] list@[k]).0@ != name@,
{
    let mut n: usize = list.len();
    while n > 0
        invariant
            n <= list@.len(),
            forall|k: int| n <= k < list@.len() ==> (#[trigger] list@[k]).0@ != name@,
        decreases n,
    {
        if same_text(list[n - 1].0.as_slice(), name) {
            return Some(n - 1);
        }
        n = n - 1;
    }
    None
}

/// The text of the name under a key.
pub open spec fn name_under(font: Entries, name: Seq<u8>) -> Option<Seq<char>> {
    match entry(font, name) {
        Some(PdfValue::Name(bytes)) => Some(lossy_text(bytes)),
        _ => None,
    }
}

/// The object number that a key refers to.
pub open spec fn number_under(font: Entries, name: Seq<u8>) -> Option<u32> {
    match entry(font, name) {
        Some(PdfValue::Reference(id)) => Some(id.0),
        _ => None,
    }
}

/// The base names of the first `n` fonts.
pub open spec fn base_names(fonts: Seq<(Seq<u8>, Entries)>, n: int) -> Seq<(Seq<char>, Seq<char>)>
    decreases n,
{
    if n <= 0 {
        seq![]
    } else {
        let before = base_names(fonts, n - 1);
        match name_under(fonts[n - 1].1, key("BaseFont")) {
            Some(base) => before.push((lossy_text(fonts[n - 1].0), base)),
            None => before,
        }
    }
}

/// The numbers of the ToUnicode streams of the first `n` fonts.
pub open spec fn tounicode_numbers(fonts: Seq<(Seq<u8>, Entries)>, n: int) -> Seq<(Seq<char>, u32)>
    decreases n,
{
    if n <= 0 {
        seq![]
    } else {
        let before = tounicode_numbers(fonts, n - 1);
        match number_under(fonts[n - 1].1, key("ToUnicode")) {
            Some(number) => before.push((lossy_text(fonts[n - 1].0), number)),
            None => before,
        }
    }
}

/// Those of the first `n` fonts that have an encoding.
pub open spec fn encoded_fonts(
    objects: Objects,
    fonts: Seq<(Seq<u8>, Entries)>,
    n: int,
) -> Seq<(Seq<char>, Entries)>
    decreases n,
{
    if n <= 0 {
        seq![]
    } else {
        let before = encoded_fonts(objects, fonts, n - 1);
        if has_encoding(objects, fonts[n - 1].1) {
            before.push((lossy_text(fonts[n - 1].0), fonts[n - 1].1))
        } else {
            before
        }
    }
}

/// What is known of the fonts of a page, by their names.
pub struct FontModel {
    /// The widths of their glyphs.
    pub widths: Seq<(Seq<char>, Widths)>,
    /// The codes to which their encodings give other characters.
    pub differences: Seq<(Seq<char>, Map<u8, char>)>,
    /// Their base names.
    pub base_names: Seq<(Seq<char>, Seq<char>)>,
    /// The numbers of their ToUnicode streams.
    pub tounicode: Seq<(Seq<char>, u32)>,
    /// The fonts that have an encoding.
    pub encoded: Seq<(Seq<char>, Entries)>,
}

/// What is known of a list of fonts.
pub open spec fn font_model(
    names: Seq<(Vec<char>, char)>,
    objects: Objects,
    fonts: Seq<(Seq<u8>, Entries)>,
) -> FontModel {
    let n = fonts.len() as int;
    FontModel {
        widths: page_widths(objects, fonts, n),
        differences: page_differences(names, objects, fonts, n),
        base_names: base_names(fonts, n),
        tounicode: tounicode_numbers(fonts, n),
        encoded: encoded_fonts(objects, fonts, n),
    }
}

/// The fonts of a page or a form.
pub struct PageFonts<'a> {
    /// The widths of their glyphs.
    pub widths: Vec<(Vec<char>, FontWidthInfo)>,
    /// The codes to which their encodings give other characters.
    pub differences: Vec<(Vec<char>, HashMap<u8, char>)>,
    /// Their base names.
    pub base_names: Vec<(Vec<char>, Vec<char>)>,
    /// The numbers of their ToUnicode streams.
    pub tounicode: Vec<(Vec<char>, u32)>,
    /// Their encodings, each with the ranges of codes that it has no entry for.
    pub encodings: Vec<(Vec<char>, (lopdf::Encoding<'a>, Vec<(u64, u64)>))>,
}

/// The text of a string by the differences of an encoding: a code that is not listed stands for the
/// character with its number, unless it is a control code.
pub open spec fn differing_text(map: Map<u8, char>, bytes: Seq<u8>) -> Seq<char>
    decreases bytes.len(),
{
    if bytes.len() == 0 {
        seq![]
    } else {
        differing_text(map, bytes.drop_last()) + if map.dom().contains(bytes.last()) {
            seq![map[bytes.last()]]
        } else if bytes.last() >= 0x20 {
            seq![bytes.last() as char]
        } else {
            seq![]
        }
    }
}

/// Whether one of the bytes is listed.
pub open spec fn any_listed(map: Map<u8, char>, bytes: Seq<u8>) -> bool {
    exists|i: int| 0 <= i < bytes.len() && map.dom().contains(#[trigger] bytes[i])
}

/// The text that the ToUnicode table of a font gives a string, if it gives any.
pub open spec fn table_text(
    model: FontModel,
    cmaps: FontCMaps,
    font: Seq<char>,
    bytes: Seq<u8>,
) -> Option<Seq<char>> {
    match last_named(model.tounicode, font) {
        Some(number) => if cmaps.by_obj_num@.dom().contains(number)
            && cmaps.by_obj_num@[number].decoded(bytes).len() > 0 {
            Some(cmaps.by_obj_num@[number].decoded(bytes))
        } else {
            None
        },
        None => None,
    }
}

/// The text of a string that is shown in a font. The font's ToUnicode table comes first, then the
/// differences of its encoding where they list one of the bytes, then its encoding, and last the
/// plain reading of a string.
pub open spec fn shown_text(
    model: FontModel,
    cmaps: FontCMaps,
    objects: Objects,
    font: Seq<char>,
    bytes: Seq<u8>,
) -> Seq<char> {
    if table_text(model, cmaps, font, bytes) is Some {
        table_text(model, cmaps, font, bytes)->0
    } else if last_named(model.differences, font) is Some && any_listed(
        last_named(model.differences, font)->0,
        bytes,
    ) {
        differing_text(last_named(model.differences, font)->0, bytes)
    } else {
        match last_named(model.encoded, font) {
            Some(entries) => match font_text(objects, entries, bytes) {
                Some(text) => text,
                None => string_text(bytes),
            },
            None => string_text(bytes),
        }
    }
}

/// A list of base names as it is held, as plain contents.
pub open spec fn base_name_contents(list: Seq<(Vec<char>, Vec<char>)>) -> Seq<
    (Seq<char>, Seq<char>),
> {
    list.map_values(|e: (Vec<char>, Vec<char>)| (e.0@, e.1@))
}

/// A list of stream numbers as it is held, as plain contents.
pub open spec fn number_contents(list: Seq<(Vec<char>, u32)>) -> Seq<(Seq<char>, u32)> {
    list.map_values(|e: (Vec<char>, u32)| (e.0@, e.1))
}

/// Whether an encoding and its ranges are those of a font.
pub open spec fn holds_encoding(
    held: (lopdf::Encoding, Vec<(u64, u64)>),
    objects: Objects,
    font: Entries,
) -> bool {
    is_encoding_of(held.0, held.1@, objects, font)
}

/// Whether a list of encodings is that of the given fonts.
pub open spec fn are_encodings(
    list: Seq<(Vec<char>, (lopdf::Encoding, Vec<(u64, u64)>))>,
    encoded: Seq<(Seq<char>, Entries)>,
    objects: Objects,
) -> bool {
    &&& list.len() == encoded.len()
    &&& forall|i: int|
        0 <= i < list.len() ==> (#[trigger] list[i]).0@ == encoded[i].0 && holds_encoding(
            list[i].1,
            objects,
            encoded[i].1,
        )
}

impl<'a> PageFonts<'a> {
    /// Whether what is held of the fonts is what there is to know.
    pub open spec fn holds(self, model: FontModel, objects: Objects) -> bool {
        &&& width_contents(self.widths@) == model.widths
        &&& encoding_contents(self.differences@) == model.differences
        &&& base_name_contents(self.base_names@) == model.base_names
        &&& number_contents(self.tounicode@) == model.tounicode
        &&& are_encodings(self.encodings@, model.encoded, objects)
    }

    /// Gathers what there is to know of a list of fonts.
    pub fn new(
        doc: &lopdf::Document,
        fonts: &Vec<(Vec<u8>, &'a lopdf::Dictionary)>,
        glyphs: &GlyphNames,
    ) -> (r: PageFonts<'a>)
        ensures
            r.holds(
                font_model(glyphs.names@, document_objects(*doc), listed_fonts(fonts@)),
                document_objects(*doc),
            ),
    {
        let ghost objects = document_objects(*doc);
        let ghost all = listed_fonts(fonts@);
        let mut names: Vec<(Vec<char>, Vec<char>)> = Vec::new();
        let mut numbers: Vec<(Vec<char>, u32)> = Vec::new();
        let mut encodings: Vec<(Vec<char>, (lopdf::Encoding<'a>, Vec<(u64, u64)>))> = Vec::new();
        let mut i: usize = 0;
        assert(base_name_contents(names@) =~= seq![]);
        assert(number_contents(numbers@) =~= seq![]);
        while i < fonts.len()
            invariant
                i <= fonts@.len(),
                objects == document_objects(*doc),
                all == listed_fonts(fonts@),
                base_name_contents(names@) == base_names(all, i as int),
                number_contents(numbers@) == tounicode_numbers(all, i as int),
                are_encodings(encodings@, encoded_fonts(objects, all, i as int), objects),
            decreases fonts@.len() - i,
        {
            let font: &'a lopdf::Dictionary = fonts[i].1;
            let ghost names_before = base_name_contents(names@);
            let ghost numbers_before = number_contents(numbers@);
            let ghost encoded_before = encoded_fonts(objects, all, i as int);
            assert(all[i as int] == (fonts@[i as int].0@, dictionary_entries(*font)));
            match get_name(font, "BaseFont") {
                Some(base) => {
                    let name = name_chars(&fonts[i].0);
                    let ghost added = (name@, base@);
                    names.push((name, base));
                    assert(base_name_contents(names@) =~= names_before.push(added));
                },
                None => {},
            }
            match get_reference_number(font, "ToUnicode") {
                Some(number) => {
                    let name = name_chars(&fonts[i].0);
                    let ghost added = (name@, number);
                    numbers.push((name, number));
                    assert(number_contents(numbers@) =~= numbers_before.push(added));
                },
                None => {},
            }
            match find_encoding(doc, font) {
                Some(encoding) => {
                    let name = name_chars(&fonts[i].0);
                    let ghost list_before = encodings@;
                    encodings.push((name, encoding));
                    proof {
                        let now = encoded_fonts(objects, all, i + 1);
                        assert(now == encoded_before.push(
                            (lossy_text(all[i as int].0), all[i as int].1),
                        ));
                        assert forall|k: int| 0 <= k < encodings@.len() implies (
                        #[trigger] encodings@[k]).0@ == now[k].0 && holds_encoding(
                            encodings@[k].1,
                            objects,
                            now[k].1,
                        ) by {
                            if k < list_before.len() {
                                assert(encodings@[k] == list_before[k]);
                                assert(now[k] == encoded_before[k]);
                            }
                        }
                    }
                },
                None => {},
            }
            i = i + 1;
        }
        PageFonts {
            widths: build_font_widths(doc, fonts),
            differences: build_font_encodings(doc, fonts, glyphs),
            base_names: names,
            tounicode: numbers,
            encodings,
        }
    }

    /// The widths of a font's glyphs.
    pub fn widths_of(&self, font: &[char]) -> (r: Option<&FontWidthInfo>)
        ensures
            match r {
                Some(info) => last_named(width_contents(self.widths@), font@) == Some(info@),
                None => last_named(width_contents(self.widths@), font@) is None,
            },
    {
        let ghost contents = width_contents(self.widths@);
        match find_named(&self.widths, font) {
            Some(i) => {
                proof {
                    assert forall|k: int| i < k < contents.len() implies (
                    #[trigger] contents[k]).0 != font@ by {
                        assert(contents[k].0 == self.widths@[k].0@);
                    }
                    lemma_last_named(contents, font@, i as int);
                }
                Some(&self.widths[i].1)
            },
            None => {
                proof {
                    assert forall|k: int| 0 <= k < contents.len() implies (
                    #[trigger] contents[k]).0 != font@ by {
                        assert(contents[k].0 == self.widths@[k].0@);
                    }
                    lemma_none_named(contents, font@);
                }
                None
            },
        }
    }

    /// The base name of a font; its name on the page where it has none.
    pub fn base_name_of(&self, font: &[char]) -> (r: Vec<char>)
        ensures
            r@ == match last_named(base_name_contents(self.base_names@), font@) {
                Some(base) => base,
                None => font@,
            },
    {
        let ghost contents = base_name_contents(self.base_names@);
        match find_named(&self.base_names, font) {
            Some(i) => {
                proof {
                    assert forall|k: int| i < k < contents.len() implies (
                    #[trigger] contents[k]).0 != font@ by {
                        assert(contents[k].0 == self.base_names@[k].0@);
                    }
                    lemma_last_named(contents, font@, i as int);
                }
                copy_chars(self.base_names[i].1.as_slice())
            },
            None => {
                proof {
                    assert forall|k: int| 0 <= k < contents.len() implies (
                    #[trigger] contents[k]).0 != font@ by {
                        assert(contents[k].0 == self.base_names@[k].0@);
                    }
                    lemma_none_named(contents, font@);
                }
                copy_chars(font)
            },
        }
    }

    /// The text that the ToUnicode table of a font gives a string.
    fn decode_by_table(
        &self,
        font: &[char],
        bytes: &[u8],
        cmaps: &FontCMaps,
        Ghost(model): Ghost<FontModel>,
    ) -> (r: Option<Vec<char>>)
        requires
            number_contents(self.tounicode@) == model.tounicode,
            cmaps.wf(),
        ensures
            match r {
                Some(text) => table_text(model, *cmaps, font@, bytes@) == Some(text@),
                None => table_text(model, *cmaps, font@, bytes@) is None,
            },
    {
        let ghost contents = number_contents(self.tounicode@);
        match find_named(&self.tounicode, font) {
            Some(i) => {
                proof {
                    assert forall|k: int| i < k < contents.len() implies (
                    #[trigger] contents[k]).0 != font@ by {
                        assert(contents[k].0 == self.tounicode@[k].0@);
                    }
                    lemma_last_named(contents, font@, i as int);
                }
                match cmaps.get_by_obj(self.tounicode[i].1) {
                    Some(cmap) => {
                        let text = chars_of(cmap.decode_cids(bytes).as_str());
                        if text.len() > 0 {
                            Some(text)
                        } else {
                            None
                        }
                    },
                    None => None,
                }
            },
            None => {
                proof {
                    assert forall|k: int| 0 <= k < contents.len() implies (
                    #[trigger] contents[k]).0 != font@ by {
                        assert(contents[k].0 == self.tounicode@[k].0@);
                    }
                    lemma_none_named(contents, font@);
                }
                None
            },
        }
    }

    /// The text that the differences of a font's encoding give a string.
    fn decode_by_differences(
        &self,
        font: &[char],
        bytes: &[u8],
        Ghost(model): Ghost<FontModel>,
    ) -> (r: Option<Vec<char>>)
        requires
            encoding_contents(self.differences@) == model.differences,
        ensures
            match r {
                Some(text) => last_named(model.differences, font@) is Some && any_listed(
                    last_named(model.differences, font@)->0,
                    bytes@,
                ) && text@ == differing_text(last_named(model.differences, font@)->0, bytes@),
                None => last_named(model.differences, font@) is None || !any_listed(
                    last_named(model.differences, font@)->0,
                    bytes@,
                ),
            },
    {
        let ghost contents = encoding_contents(self.differences@);
        match find_named(&self.differences, font) {
            Some(i) => {
                proof {
                    assert forall|k: int| i < k < contents.len() implies (
                    #[trigger] contents[k]).0 != font@ by {
                        assert(contents[k].0 == self.differences@[k].0@);
                    }
                    lemma_last_named(contents, font@, i as int);
                }
                decode_differing(&self.differences[i].1, bytes)
            },
            None => {
                proof {
                    assert forall|k: int| 0 <= k < contents.len() implies (
                    #[trigger] contents[k]).0 != font@ by {
                        assert(contents[k].0 == self.differences@[k].0@);
                    }
                    lemma_none_named(contents, font@);
                }
                None
            },
        }
    }

    /// The text that a font's encoding gives a string; the plain reading where it gives none.
    fn decode_by_encoding(
        &self,
        font: &[char],
        bytes: &[u8],
        Ghost(model): Ghost<FontModel>,
        Ghost(objects): Ghost<Objects>,
    ) -> (r: Vec<char>)
        requires
            are_encodings(self.encodings@, model.encoded, objects),
        ensures
            r@ == match last_named(model.encoded, font@) {
                Some(entries) => match font_text(objects, entries, bytes@) {
                    Some(text) => text,
                    None => string_text(bytes@),
                },
                None => string_text(bytes@),
            },
    {
        match find_named(&self.encodings, font) {
            Some(i) => {
                proof {
                    assert(self.encodings@[i as int].0@ == model.encoded[i as int].0);
                    assert forall|k: int| i < k < model.encoded.len() implies (
                    #[trigger] model.encoded[k]).0 != font@ by {
                        assert(self.encodings@[k].0@ == model.encoded[k].0);
                    }
                    lemma_last_named(model.encoded, font@, i as int);
                }
                let held = &self.encodings[i].1;
                assert(holds_encoding(*held, objects, model.encoded[i as int].1));
                match decode_font_text(
                    &held.0,
                    &held.1,
                    bytes,
                    Ghost(objects),
                    Ghost(model.encoded[i as int].1),
                ) {
                    Some(text) => chars_of(text.as_str()),
                    None => chars_of(decode_text_string(bytes).as_str()),
                }
            },
            None => {
                proof {
                    assert forall|k: int| 0 <= k < model.encoded.len() implies (
                    #[trigger] model.encoded[k]).0 != font@ by {
                        assert(self.encodings@[k].0@ == model.encoded[k].0);
                    }
                    lemma_none_named(model.encoded, font@);
                }
                chars_of(decode_text_string(bytes).as_str())
            },
        }
    }

    /// The text of a string that is shown in a font.
    pub(crate) fn decode_string(
        &self,
        font: &[char],
        bytes: &[u8],
        cmaps: &FontCMaps,
        Ghost(model): Ghost<FontModel>,
        Ghost(objects): Ghost<Objects>,
    ) -> (r: Vec<char>)
        requires
            self.holds(model, objects),
            cmaps.wf(),
        ensures
            r@ == shown_text(model, *cmaps, objects, font@, bytes@),
    {
        match self.decode_by_table(font, bytes, cmaps, Ghost(model)) {
            Some(text) => {
                return text;
            },
            None => {},
        }
        match self.decode_by_differences(font, bytes, Ghost(model)) {
            Some(text) => {
                return text;
            },
            None => {},
        }
        self.decode_by_encoding(font, bytes, Ghost(model), Ghost(objects))
    }
}

/// The text of a string by the differences of an encoding, where they list one of its bytes.
pub fn decode_differing(map: &HashMap<u8, char>, bytes: &[u8]) -> (r: Option<Vec<char>>)
    ensures
        match r {
            Some(text) => any_listed(map@, bytes@) && text@ == differing_text(map@, bytes@),
            None => !any_listed(map@, bytes@),
        },
{
    let mut out: Vec<char> = Vec::new();
    let mut listed: bool = false;
    let mut i: usize = 0;
    assert(bytes@.take(0) =~= seq![]);
    while i < bytes.len()
        invariant
            i <= bytes@.len(),
            out@ == differing_text(map@, bytes@.take(i as int)),
            listed <==> exists|k: int| 0 <= k < i && map@.dom().contains(#[trigger] bytes@[k]),
        decreases bytes@.len() - i,
    {
        let b: u8 = bytes[i];
        let ghost before = out@;
        assert(bytes@.take(i + 1).drop_last() =~= bytes@.take(i as int));
        match map.get(&b) {
            Some(c) => {
                out.push(*c);
                listed = true;
                assert(out@ =~= before + seq![map@[b]]);
                assert(map@.dom().contains(bytes@[i as int]));
            },
            None => {
                if b >= 0x20 {
                    out.push(b as char);
                    assert(out@ =~= before + seq![b as char]);
                } else {
                    assert(out@ =~= before + seq![]);
                }
            },
        }
        i = i + 1;
    }
    assert(bytes@.take(i as int) =~= bytes@);
    if listed {
        Some(out)
    } else {
        None
    }
}

/// A copy of a text.
pub fn copy_chars(s: &[char]) -> (r: Vec<char>)
    ensures
        r@ == s@,
{
    let mut out: Vec<char> = Vec::new();
    let mut i: usize = 0;
    while i < s.len()
        invariant
            i <= s@.len(),
            out@ == s@.take(i as int),
        decreases s@.len() - i,
    {
        out.push(s[i]);
        i = i + 1;
        assert(out@ =~= s@.take(i as int));
    }
    assert(out@ =~= s@);
    out
}

/// The characters of a font's name on the page.
fn name_chars(name: &Vec<u8>) -> (r: Vec<char>)
    ensures
        r@ == lossy_text(name@),
{
    chars_of(text_from_utf8_lossy(name.as_slice()).as_str())
}

/// The text of the name under a key.
fn get_name(dict: &lopdf::Dictionary, name: &str) -> (r: Option<Vec<char>>)
    ensures
        match r {
            Some(text) => name_under(dictionary_entries(*dict), key(name)) == Some(text@),
            None => name_under(dictionary_entries(*dict), key(name)) is None,
        },
{
    match dict_get(dict, name) {
        Some(object) => match shape_of(object) {
            Shape::Name(bytes) => Some(name_chars(bytes)),
            _ => None,
        },
        None => None,
    }
}

/// The object number that a key refers to.
fn get_reference_number(dict: &lopdf::Dictionary, name: &str) -> (r: Option<u32>)
    ensures
        r == number_under(dictionary_entries(*dict), key(name)),
{
    match dict_get(dict, name) {
        Some(object) => match shape_of(object) {
            Shape::Reference(id) => Some(id.0),
            _ => None,
        },
        None => None,
    }
}

} // verus!
