//! From the bytes of a string on a page to its text.

use crate::numbers::{low_8, to_u8};
use crate::pdf::{
    dict_get, dictionary_at, dictionary_entries, document_objects, entry, key, listed_fonts,
    object_value, object_values, resolve_dict, shape_of, Entries, Objects, PdfValue, Shape,
};
use crate::text::{chars_of, lossy_text, text_from_utf8_lossy};
use crate::widths::{array_at, resolve_array};
use std::collections::HashMap;
use vstd::prelude::*;

verus! {

broadcast use vstd::std_specs::hash::group_hash_axioms;

/// Names of glyphs and the characters that they stand for.
#[derive(Debug)]
pub struct GlyphNames {
    pub names: Vec<(Vec<char>, char)>,
}

/// The character of the first entry with the given name.
pub open spec fn glyph_char(names: Seq<(Vec<char>, char)>, name: Seq<char>) -> Option<char>
    decreases names.len(),
{
    if names.len() == 0 {
        None
    } else if names[0].0@ == name {
        Some(names[0].1)
    } else {
        glyph_char(names.skip(1), name)
    }
}

/// Whether two texts are the same.
pub fn same_text(a: &[char], b: &[char]) -> (r: bool)
    ensures
        r == (a@ == b@),
{
    if a.len() != b.len() {
        return false;
    }
    let mut i: usize = 0;
    while i < a.len()
        invariant
            i <= a@.len() == b@.len(),
            forall|k: int| 0 <= k < i ==> a@[k] == b@[k],
        decreases a@.len() - i,
    {
        if a[i] != b[i] {
            return false;
        }
        i = i + 1;
    }
    assert(a@ =~= b@);
    true
}

impl GlyphNames {
    /// The character that a glyph name stands for.
    pub fn glyph_to_char(&self, name: &[char]) -> (r: Option<char>)
        ensures
            r == glyph_char(self.names@, name@),
    {
        let mut i: usize = 0;
        assert(self.names@.skip(0) =~= self.names@);
        while i < self.names.len()
            invariant
                i <= self.names@.len(),
                glyph_char(self.names@.skip(i as int), name@) == glyph_char(self.names@, name@),
            decreases self.names@.len() - i,
        {
            if same_text(self.names[i].0.as_slice(), name) {
                return Some(self.names[i].1);
            }
            assert(self.names@.skip(i as int).skip(1) =~= self.names@.skip(i + 1));
            i = i + 1;
        }
        None
    }
}

/// What the first `n` items of a `Differences` list say: the code that comes next, and the codes
/// given so far. A number sets the code; a name is the glyph of the code, and the next code
/// follows, 0 behind 255.
pub open spec fn differences(
    names: Seq<(Vec<char>, char)>,
    list: Seq<PdfValue>,
    n: int,
) -> (u8, Map<u8, char>)
    decreases n,
{
    if n <= 0 {
        (0, Map::empty())
    } else {
        let before = differences(names, list, n - 1);
        match list[n - 1] {
            PdfValue::Integer(i) => (low_8(i as int), before.1),
            PdfValue::Name(name) => (
                low_8(before.0 + 1),
                match glyph_char(names, lossy_text(name)) {
                    Some(c) => before.1.insert(before.0, c),
                    None => before.1,
                },
            ),
            _ => before,
        }
    }
}

/// The codes that an encoding dictionary gives other characters; `None` where it gives none.
pub open spec fn encoding_differences(
    names: Seq<(Vec<char>, char)>,
    objects: Objects,
    encoding: Entries,
) -> Option<Map<u8, char>> {
    match entry(encoding, key("Differences")) {
        Some(v) => match array_at(objects, v) {
            Some(list) => {
                let map = differences(names, list, list.len() as int).1;
                if map.is_empty() {
                    None
                } else {
                    Some(map)
                }
            },
            None => None,
        },
        None => None,
    }
}

/// The codes that a font's own encoding gives other characters. A standard encoding, given by its
/// name, is left to the font.
pub open spec fn font_differences(
    names: Seq<(Vec<char>, char)>,
    objects: Objects,
    font: Entries,
) -> Option<Map<u8, char>> {
    match entry(font, key("Encoding")) {
        Some(v) => match dictionary_at(objects, v) {
            Some(encoding) => encoding_differences(names, objects, encoding),
            None => None,
        },
        None => None,
    }
}

/// Whether an optional map is held.
pub open spec fn holds_map(r: Option<HashMap<u8, char>>, map: Option<Map<u8, char>>) -> bool {
    match r {
        Some(m) => map == Some(m@),
        None => map is None,
    }
}

/// Reads the `Differences` list of an encoding dictionary.
pub fn parse_encoding_dictionary(
    doc: &lopdf::Document,
    enc_dict: &lopdf::Dictionary,
    glyphs: &GlyphNames,
) -> (r: Option<HashMap<u8, char>>)
    ensures
        holds_map(
            r,
            encoding_differences(
                glyphs.names@,
                document_objects(*doc),
                dictionary_entries(*enc_dict),
            ),
        ),
{
    let array = match dict_get(enc_dict, "Differences") {
        Some(object) => match resolve_array(doc, object) {
            Some(items) => items,
            None => {
                return None;
            },
        },
        None => {
            return None;
        },
    };
    let ghost list = object_values(array@);
    let mut map: HashMap<u8, char> = HashMap::new();
    let mut code: u8 = 0;
    let mut i: usize = 0;
    while i < array.len()
        invariant
            i <= array@.len(),
            list == object_values(array@),
            (code, map@) == differences(glyphs.names@, list, i as int),
        decreases array@.len() - i,
    {
        assert(list[i as int] == object_value(array@[i as int]));
        match shape_of(&array[i]) {
            Shape::Integer(n) => {
                code = to_u8(n);
            },
            Shape::Name(name) => {
                let text = chars_of(text_from_utf8_lossy(name.as_slice()).as_str());
                match glyphs.glyph_to_char(text.as_slice()) {
                    Some(c) => {
                        map.insert(code, c);
                    },
                    None => {},
                }
                code = code.wrapping_add(1);
            },
            _ => {},
        }
        i = i + 1;
    }
    if map.is_empty() {
        None
    } else {
        Some(map)
    }
}

/// Reads the codes that a font's own encoding gives other characters.
pub fn parse_font_encoding(
    doc: &lopdf::Document,
    font_dict: &lopdf::Dictionary,
    glyphs: &GlyphNames,
) -> (r: Option<HashMap<u8, char>>)
    ensures
        holds_map(
            r,
            font_differences(glyphs.names@, document_objects(*doc), dictionary_entries(*font_dict)),
        ),
{
    match dict_get(font_dict, "Encoding") {
        Some(object) => match resolve_dict(doc, object) {
            Some(encoding) => parse_encoding_dictionary(doc, encoding, glyphs),
            None => None,
        },
        None => None,
    }
}

/// The codes that the encodings of the first `n` fonts of a page give other characters, each with
/// the name of its font.
pub open spec fn page_differences(
    names: Seq<(Vec<char>, char)>,
    objects: Objects,
    fonts: Seq<(Seq<u8>, Entries)>,
    n: int,
) -> Seq<(Seq<char>, Map<u8, char>)>
    decreases n,
{
    if n <= 0 {
        seq![]
    } else {
        let before = page_differences(names, objects, fonts, n - 1);
        match font_differences(names, objects, fonts[n - 1].1) {
            Some(map) => before.push((lossy_text(fonts[n - 1].0), map)),
            None => before,
        }
    }
}

/// A list of encodings as it is held, as plain contents.
pub open spec fn encoding_contents(list: Seq<(Vec<char>, HashMap<u8, char>)>) -> Seq<
    (Seq<char>, Map<u8, char>),
> {
    list.map_values(|e: (Vec<char>, HashMap<u8, char>)| (e.0@, e.1@))
}

/// Reads the encodings of all fonts of a page.
pub fn build_font_encodings(
    doc: &lopdf::Document,
    fonts: &Vec<(Vec<u8>, &lopdf::Dictionary)>,
    glyphs: &GlyphNames,
) -> (r: Vec<(Vec<char>, HashMap<u8, char>)>)
    ensures
        encoding_contents(r@) == page_differences(
            glyphs.names@,
            document_objects(*doc),
            listed_fonts(fonts@),
            fonts@.len() as int,
        ),
{
    let ghost objects = document_objects(*doc);
    let ghost all = listed_fonts(fonts@);
    let mut out: Vec<(Vec<char>, HashMap<u8, char>)> = Vec::new();
    let mut i: usize = 0;
    assert(encoding_contents(out@) =~= seq![]);
    while i < fonts.len()
        invariant
            i <= fonts@.len(),
            objects == document_objects(*doc),
            all == listed_fonts(fonts@),
            encoding_contents(out@) == page_differences(glyphs.names@, objects, all, i as int),
        decreases fonts@.len() - i,
    {
        let ghost before = encoding_contents(out@);
        let font = fonts[i].1;
        assert(all[i as int] == (fonts@[i as int].0@, dictionary_entries(*font)));
        match parse_font_encoding(doc, font, glyphs) {
            Some(map) => {
                let name = chars_of(text_from_utf8_lossy(fonts[i].0.as_slice()).as_str());
                let ghost added = (name@, map@);
                out.push((name, map));
                assert(encoding_contents(out@) =~= before.push(added));
            },
            None => {},
        }
        i = i + 1;
    }
    out
}

} // verus!
