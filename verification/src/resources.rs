//! What a page refers to besides its content: images and forms, the fonts of forms, and links.

use crate::font_cmaps::{insert_named, with_named};
use crate::numbers::Number;
use crate::pdf::{
    dict_entries, dict_get, dictionary_at, dictionary_entries, dictionary_under, document_objects,
    entry, get_dict_under, get_dictionary, get_stream, is_name, key, listed_entries, listed_fonts,
    object_value, object_values, resolve_dict, resolved_dictionary, resolved_stream, shape_of,
    stream_parts, Entries, Objects, PdfValue, Shape,
};
use crate::text::{chars_of, lossy_text, text_from_utf8_lossy};
use crate::widths::{array_at, resolve_array};
use vstd::prelude::*;

verus! {

/// What an XObject is.
#[derive(Debug, Clone, Copy, PartialEq, Eq)]
pub enum XObjectType {
    /// An image.
    Image,
    /// A form with content of its own, and the object that holds it.
    Form((u32, u16)),
}

/// What the object that a value refers to is, if it is an image or a form.
pub open spec fn xobject_type(objects: Objects, value: PdfValue) -> Option<XObjectType> {
    match value {
        PdfValue::Reference(id) => match resolved_stream(objects, id) {
            Some((entries, bytes)) => match entry(entries, key("Subtype")) {
                Some(PdfValue::Name(kind)) => if kind == key("Image") {
                    Some(XObjectType::Image)
                } else if kind == key("Form") {
                    Some(XObjectType::Form(id))
                } else {
                    None
                },
                _ => None,
            },
            None => None,
        },
        _ => None,
    }
}

/// The images and forms among the first `n` entries of an XObject dictionary.
pub open spec fn xobjects_among(objects: Objects, entries: Entries, n: int) -> Seq<
    (Seq<char>, XObjectType),
>
    decreases n,
{
    if n <= 0 {
        seq![]
    } else {
        let before = xobjects_among(objects, entries, n - 1);
        match xobject_type(objects, entries[n - 1].1) {
            Some(kind) => before.push((lossy_text(entries[n - 1].0), kind)),
            None => before,
        }
    }
}

/// The images and forms of a page, by name.
pub open spec fn page_xobjects(objects: Objects, page: (u32, u16)) -> Seq<(Seq<char>, XObjectType)> {
    match resolved_dictionary(objects, page) {
        Some(dict) => match dictionary_under(objects, dict, key("Resources")) {
            Some(resources) => match dictionary_under(objects, resources, key("XObject")) {
                Some(entries) => xobjects_among(objects, entries, entries.len() as int),
                None => seq![],
            },
            None => seq![],
        },
        None => seq![],
    }
}

/// A list of images and forms as it is held, as plain contents.
pub open spec fn xobject_contents(list: Seq<(Vec<char>, XObjectType)>) -> Seq<
    (Seq<char>, XObjectType),
> {
    list.map_values(|e: (Vec<char>, XObjectType)| (e.0@, e.1))
}

/// What the object that an object refers to is.
fn get_xobject_type(doc: &lopdf::Document, object: &lopdf::Object) -> (r: Option<XObjectType>)
    ensures
        r == xobject_type(document_objects(*doc), object_value(*object)),
{
    let id: (u32, u16) = match shape_of(object) {
        Shape::Reference(id) => id,
        _ => {
            return None;
        },
    };
    let stream = match get_stream(doc, id) {
        Some(s) => s,
        None => {
            return None;
        },
    };
    match dict_get(stream_parts(stream).0, "Subtype") {
        Some(kind) => match shape_of(kind) {
            Shape::Name(name) => if is_name(name.as_slice(), "Image") {
                Some(XObjectType::Image)
            } else if is_name(name.as_slice(), "Form") {
                Some(XObjectType::Form(id))
            } else {
                None
            },
            _ => None,
        },
        None => None,
    }
}

/// Lists the images and forms of a page.
pub fn get_page_xobjects(doc: &lopdf::Document, page_id: (u32, u16)) -> (r: Vec<
    (Vec<char>, XObjectType),
>)
    ensures
        xobject_contents(r@) == page_xobjects(document_objects(*doc), page_id),
{
    let ghost objects = document_objects(*doc);
    let mut out: Vec<(Vec<char>, XObjectType)> = Vec::new();
    assert(xobject_contents(out@) =~= seq![]);
    let xobjects = match get_dictionary(doc, page_id) {
        Some(dict) => match get_dict_under(doc, dict, "Resources") {
            Some(resources) => get_dict_under(doc, resources, "XObject"),
            None => None,
        },
        None => None,
    };
    match xobjects {
        Some(dict) => {
            let list = dict_entries(dict);
            let ghost entries = dictionary_entries(*dict);
            let mut i: usize = 0;
            while i < list.len()
                invariant
                    i <= list@.len(),
                    objects == document_objects(*doc),
                    listed_entries(list@) == entries,
                    xobject_contents(out@) == xobjects_among(objects, entries, i as int),
                decreases list@.len() - i,
            {
                let ghost before = xobject_contents(out@);
                let (name, value) = list[i];
                assert(entries[i as int] == (name@, object_value(*value)));
                match get_xobject_type(doc, value) {
                    Some(kind) => {
                        let name = chars_of(text_from_utf8_lossy(name.as_slice()).as_str());
                        let ghost added = (name@, kind);
                        out.push((name, kind));
                        assert(xobject_contents(out@) =~= before.push(added));
                    },
                    None => {},
                }
                i = i + 1;
            }
            assert(entries.len() == list@.len());
        },
        None => {},
    }
    out
}

/// The fonts among the first `n` entries of a form's font dictionary, in the order of their names.
/// Only fonts that the dictionary refers to count.
pub open spec fn referred_fonts(objects: Objects, entries: Entries, n: int) -> Seq<
    (Seq<u8>, Entries),
>
    decreases n,
{
    if n <= 0 {
        seq![]
    } else {
        let before = referred_fonts(objects, entries, n - 1);
        match entries[n - 1].1 {
            PdfValue::Reference(id) => match resolved_dictionary(objects, id) {
                Some(font) => with_named(before, entries[n - 1].0, font),
                None => before,
            },
            _ => before,
        }
    }
}

/// The fonts of a form.
pub open spec fn form_fonts(objects: Objects, form: Entries) -> Seq<(Seq<u8>, Entries)> {
    match dictionary_under(objects, form, key("Resources")) {
        Some(resources) => match dictionary_under(objects, resources, key("Font")) {
            Some(fonts) => referred_fonts(objects, fonts, fonts.len() as int),
            None => seq![],
        },
        None => seq![],
    }
}

/// Lists the fonts of a form.
pub(crate) fn get_form_fonts<'a>(
    doc: &'a lopdf::Document,
    form_dict: &'a lopdf::Dictionary,
) -> (r: Vec<(Vec<u8>, &'a lopdf::Dictionary)>)
    ensures
        listed_fonts(r@) == form_fonts(document_objects(*doc), dictionary_entries(*form_dict)),
{
    let ghost objects = document_objects(*doc);
    let mut fonts: Vec<(Vec<u8>, &'a lopdf::Dictionary)> = Vec::new();
    assert(listed_fonts(fonts@) =~= seq![]);
    let dict = match get_dict_under(doc, form_dict, "Resources") {
        Some(resources) => get_dict_under(doc, resources, "Font"),
        None => None,
    };
    match dict {
        Some(dict) => {
            let list = dict_entries(dict);
            let ghost entries = dictionary_entries(*dict);
            let mut i: usize = 0;
            while i < list.len()
                invariant
                    i <= list@.len(),
                    objects == document_objects(*doc),
                    listed_entries(list@) == entries,
                    listed_fonts(fonts@) == referred_fonts(objects, entries, i as int),
                decreases list@.len() - i,
            {
                let (name, value) = list[i];
                assert(entries[i as int] == (name@, object_value(*value)));
                match shape_of(value) {
                    Shape::Reference(id) => match get_dictionary(doc, id) {
                        Some(font) => {
                            insert_named(&mut fonts, name, font);
                        },
                        None => {},
                    },
                    _ => {},
                }
                i = i + 1;
            }
            assert(entries.len() == list@.len());
        },
        None => {},
    }
    fonts
}

// ---------------------------------------------------------------------------------------------
// Links
// ---------------------------------------------------------------------------------------------

/// A link on a page: where it leads, and two opposite corners of its area.
#[derive(Debug, Clone)]
pub struct PageLink {
    pub url: String,
    pub x1: Number,
    pub y1: Number,
    pub x2: Number,
    pub y2: Number,
}

/// The contents of a [`PageLink`].
pub struct LinkModel {
    pub url: Seq<char>,
    pub x1: Number,
    pub y1: Number,
    pub x2: Number,
    pub y2: Number,
}

impl View for PageLink {
    type V = LinkModel;

    open spec fn view(&self) -> LinkModel {
        LinkModel { url: self.url@, x1: self.x1, y1: self.y1, x2: self.x2, y2: self.y2 }
    }
}

/// The number that a value is.
pub open spec fn number_of(value: PdfValue) -> Option<Number> {
    match value {
        PdfValue::Integer(i) => Some(Number::Integer(i)),
        PdfValue::Real(bits) => Some(Number::Real(bits)),
        _ => None,
    }
}

/// The number that a value is, or the given integer.
pub open spec fn number_or(value: PdfValue, other: i64) -> Number {
    match number_of(value) {
        Some(n) => n,
        None => Number::Integer(other),
    }
}

/// The number that an object is.
pub(crate) fn get_number(object: &lopdf::Object) -> (r: Option<Number>)
    ensures
        r == number_of(object_value(*object)),
{
    match shape_of(object) {
        Shape::Integer(i) => Some(Number::Integer(i)),
        Shape::Real(bits) => Some(Number::Real(bits)),
        _ => None,
    }
}

/// The number that an object is, or the given integer.
pub(crate) fn get_number_or(object: &lopdf::Object, other: i64) -> (r: Number)
    ensures
        r == number_or(object_value(*object), other),
{
    match get_number(object) {
        Some(n) => n,
        None => Number::Integer(other),
    }
}

/// Where the action of an annotation leads, if it leads to an address.
pub open spec fn link_uri(objects: Objects, annotation: Entries) -> Option<Seq<char>> {
    match dictionary_under(objects, annotation, key("A")) {
        Some(action) => match entry(action, key("URI")) {
            Some(PdfValue::Text(bytes)) => Some(lossy_text(bytes)),
            _ => None,
        },
        None => None,
    }
}

/// Reads where the action of an annotation leads.
pub fn extract_link_uri(doc: &lopdf::Document, annot_dict: &lopdf::Dictionary) -> (r: Option<
    String,
>)
    ensures
        match r {
            Some(uri) => link_uri(document_objects(*doc), dictionary_entries(*annot_dict)) == Some(
                uri@,
            ),
            None => link_uri(document_objects(*doc), dictionary_entries(*annot_dict)) is None,
        },
{
    match get_dict_under(doc, annot_dict, "A") {
        Some(action) => match dict_get(action, "URI") {
            Some(object) => match shape_of(object) {
                Shape::Text(bytes) => Some(text_from_utf8_lossy(bytes.as_slice())),
                _ => None,
            },
            None => None,
        },
        None => None,
    }
}

/// Whether an annotation may be a link: its kind is not given by a name, or is `Link`.
pub open spec fn may_be_link(annotation: Entries) -> bool {
    match entry(annotation, key("Subtype")) {
        Some(PdfValue::Name(kind)) => kind == key("Link"),
        _ => true,
    }
}

/// The link that an annotation is; `None` where it is none, or has no area or no address.
pub open spec fn link_of(objects: Objects, annotation: Entries) -> Option<LinkModel> {
    if !may_be_link(annotation) {
        None
    } else {
        match (entry(annotation, key("Rect")), link_uri(objects, annotation)) {
            (Some(PdfValue::Array(rect)), Some(url)) => if rect.len() >= 4 {
                Some(
                    LinkModel {
                        url,
                        x1: number_or(rect[0], 0),
                        y1: number_or(rect[1], 0),
                        x2: number_or(rect[2], 0),
                        y2: number_or(rect[3], 0),
                    },
                )
            } else {
                None
            },
            _ => None,
        }
    }
}

/// The links among the first `n` annotations.
pub open spec fn links_among(objects: Objects, annotations: Seq<PdfValue>, n: int) -> Seq<LinkModel>
    decreases n,
{
    if n <= 0 {
        seq![]
    } else {
        let before = links_among(objects, annotations, n - 1);
        match dictionary_at(objects, annotations[n - 1]) {
            Some(annotation) => match link_of(objects, annotation) {
                Some(link) => before.push(link),
                None => before,
            },
            None => before,
        }
    }
}

/// The links of a page.
pub open spec fn page_links(objects: Objects, page: (u32, u16)) -> Seq<LinkModel> {
    match resolved_dictionary(objects, page) {
        Some(dict) => match entry(dict, key("Annots")) {
            Some(v) => match array_at(objects, v) {
                Some(annotations) => links_among(objects, annotations, annotations.len() as int),
                None => seq![],
            },
            None => seq![],
        },
        None => seq![],
    }
}

/// A list of links as it is held, as plain contents.
pub open spec fn link_contents(list: Seq<PageLink>) -> Seq<LinkModel> {
    list.map_values(|l: PageLink| l@)
}

/// Reads the link that an annotation is.
fn get_link(doc: &lopdf::Document, annotation: &lopdf::Dictionary) -> (r: Option<PageLink>)
    ensures
        match r {
            Some(link) => link_of(document_objects(*doc), dictionary_entries(*annotation)) == Some(
                link@,
            ),
            None => link_of(document_objects(*doc), dictionary_entries(*annotation)) is None,
        },
{
    match dict_get(annotation, "Subtype") {
        Some(object) => match shape_of(object) {
            Shape::Name(kind) => {
                if !is_name(kind.as_slice(), "Link") {
                    return None;
                }
            },
            _ => {},
        },
        None => {},
    }
    let rect = match dict_get(annotation, "Rect") {
        Some(object) => match shape_of(object) {
            Shape::Array(items) => items,
            _ => {
                return None;
            },
        },
        None => {
            return None;
        },
    };
    if rect.len() < 4 {
        return None;
    }
    assert forall|k: int| 0 <= k < 4 implies #[trigger] object_values(rect@)[k] == object_value(
        rect@[k],
    ) by {}
    match extract_link_uri(doc, annotation) {
        Some(url) => Some(
            PageLink {
                url,
                x1: get_number_or(&rect[0], 0),
                y1: get_number_or(&rect[1], 0),
                x2: get_number_or(&rect[2], 0),
                y2: get_number_or(&rect[3], 0),
            },
        ),
        None => None,
    }
}

/// Lists the links of a page.
pub fn extract_page_links(doc: &lopdf::Document, page_id: (u32, u16)) -> (r: Vec<PageLink>)
    ensures
        link_contents(r@) == page_links(document_objects(*doc), page_id),
{
    let ghost objects = document_objects(*doc);
    let mut out: Vec<PageLink> = Vec::new();
    assert(link_contents(out@) =~= seq![]);
    let annotations = match get_dictionary(doc, page_id) {
        Some(dict) => match dict_get(dict, "Annots") {
            Some(object) => resolve_array(doc, object),
            None => None,
        },
        None => None,
    };
    match annotations {
        Some(items) => {
            let ghost list = object_values(items@);
            let mut i: usize = 0;
            while i < items.len()
                invariant
                    i <= items@.len(),
                    objects == document_objects(*doc),
                    list == object_values(items@),
                    link_contents(out@) == links_among(objects, list, i as int),
                decreases items@.len() - i,
            {
                let ghost before = link_contents(out@);
                assert(list[i as int] == object_value(items@[i as int]));
                match resolve_dict(doc, &items[i]) {
                    Some(annotation) => match get_link(doc, annotation) {
                        Some(link) => {
                            let ghost added = link@;
                            out.push(link);
                            assert(link_contents(out@) =~= before.push(added));
                        },
                        None => {},
                    },
                    None => {},
                }
                i = i + 1;
            }
        },
        None => {},
    }
    out
}

} // verus!
