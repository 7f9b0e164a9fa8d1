//! Reading a loaded PDF document.
//!
//! A document, and each object in it, is a value of the `lopdf` crate and opaque here. The model
//! is [`PdfValue`], the plain value that an object stands for; the functions of this module hand
//! out the parts of a document and say of each which plain value it is.

use crate::error::{error_failure, error_message, FailureKind};
use crate::limits::{
    can_be_undone, filters_fit, has_countable_rows, is_decodable, is_parsable, is_readable_page,
    is_usable_font, with_filters,
};
use crate::loading::{has_told_counts, is_loadable};
use crate::widths::{array_at, resolve_array};
use vstd::prelude::*;
use vstd::utf8::encode_utf8;

verus! {

#[verifier::external_type_specification]
#[verifier::external_body]
pub struct ExDocument(lopdf::Document);

#[verifier::external_type_specification]
#[verifier::external_body]
pub struct ExObject(lopdf::Object);

#[verifier::external_type_specification]
#[verifier::external_body]
pub struct ExDictionary(lopdf::Dictionary);

#[verifier::external_type_specification]
#[verifier::external_body]
pub struct ExStream(lopdf::Stream);

/// The entries of a dictionary, in the order in which they are walked.
pub type Entries = Seq<(Seq<u8>, PdfValue)>;

/// The objects of a document by object number and generation.
pub type Objects = Map<(u32, u16), PdfValue>;

/// The plain value of a PDF object. A real number is held by the bits of its single-precision
/// form.
pub enum PdfValue {
    Null,
    Boolean(bool),
    Integer(i64),
    Real(u32),
    Name(Seq<u8>),
    Text(Seq<u8>),
    Array(Seq<PdfValue>),
    Dictionary(Seq<(Seq<u8>, PdfValue)>),
    Stream(Seq<(Seq<u8>, PdfValue)>, Seq<u8>),
    Reference((u32, u16)),
}

/// The plain value of an object.
pub uninterp spec fn object_value(object: lopdf::Object) -> PdfValue;

/// The entries of a dictionary.
pub uninterp spec fn dictionary_entries(dict: lopdf::Dictionary) -> Seq<(Seq<u8>, PdfValue)>;

/// The dictionary of a stream.
pub uninterp spec fn stream_entries(stream: lopdf::Stream) -> Seq<(Seq<u8>, PdfValue)>;

/// The bytes of a stream as they stand in the file, before any filter is undone.
pub uninterp spec fn stream_bytes(stream: lopdf::Stream) -> Seq<u8>;

/// The objects that a document holds.
pub uninterp spec fn document_objects(doc: lopdf::Document) -> Map<(u32, u16), PdfValue>;

/// An object taken apart: what kind it is, and what it holds.
pub enum Shape<'a> {
    Null,
    Boolean(bool),
    Integer(i64),
    Real(u32),
    Name(&'a Vec<u8>),
    Text(&'a Vec<u8>),
    Array(&'a Vec<lopdf::Object>),
    Dictionary(&'a lopdf::Dictionary),
    Stream(&'a lopdf::Stream),
    Reference((u32, u16)),
}

/// The values of a list of objects.
pub open spec fn object_values(objects: Seq<lopdf::Object>) -> Seq<PdfValue> {
    objects.map_values(|o: lopdf::Object| object_value(o))
}

impl<'a> Shape<'a> {
    /// The plain value of the object that was taken apart.
    pub open spec fn value(self) -> PdfValue {
        match self {
            Shape::Null => PdfValue::Null,
            Shape::Boolean(b) => PdfValue::Boolean(b),
            Shape::Integer(i) => PdfValue::Integer(i),
            Shape::Real(bits) => PdfValue::Real(bits),
            Shape::Name(n) => PdfValue::Name(n@),
            Shape::Text(t) => PdfValue::Text(t@),
            Shape::Array(a) => PdfValue::Array(object_values(a@)),
            Shape::Dictionary(d) => PdfValue::Dictionary(dictionary_entries(*d)),
            Shape::Stream(s) => PdfValue::Stream(stream_entries(*s), stream_bytes(*s)),
            Shape::Reference(id) => PdfValue::Reference(id),
        }
    }
}

/// Takes a `lopdf::Object` apart by its variants.
#[verifier::external_body]
pub(crate) fn shape_of<'a>(object: &'a lopdf::Object) -> (r: Shape<'a>)
    ensures
        r.value() == object_value(*object),
{
    match object {
        lopdf::Object::Null => Shape::Null,
        lopdf::Object::Boolean(b) => Shape::Boolean(*b),
        lopdf::Object::Integer(i) => Shape::Integer(*i),
        lopdf::Object::Real(x) => Shape::Real(x.to_bits()),
        lopdf::Object::Name(n) => Shape::Name(n),
        lopdf::Object::String(t, _) => Shape::Text(t),
        lopdf::Object::Array(a) => Shape::Array(a),
        lopdf::Object::Dictionary(d) => Shape::Dictionary(d),
        lopdf::Object::Stream(s) => Shape::Stream(s),
        lopdf::Object::Reference(id) => Shape::Reference(*id),
    }
}

/// The value of the first entry with the given key.
pub open spec fn entry(entries: Seq<(Seq<u8>, PdfValue)>, key: Seq<u8>) -> Option<PdfValue>
    decreases entries.len(),
{
    if entries.len() == 0 {
        None
    } else if entries[0].0 == key {
        Some(entries[0].1)
    } else {
        entry(entries.skip(1), key)
    }
}

/// The bytes of a key or a name.
pub open spec fn key(name: &str) -> Seq<u8> {
    encode_utf8(name@)
}

/// Whether two rows of bytes are the same.
pub(crate) fn same_bytes(a: &[u8], b: &[u8]) -> (r: bool)
    ensures
        r == (a@ == b@),
{
    if a.len() != b.len() {
        return false;
    }
    let mut i: usize = 0;
    while i < a.len()
        invariant
            i <= a@.len() == b@.len(),
            forall|k: int| 0 <= k < i ==> a@[k] == b@[k],
        decreases a@.len() - i,
    {
        if a[i] != b[i] {
            return false;
        }
        i = i + 1;
    }
    assert(a@ =~= b@);
    true
}

/// Whether a row of bytes is the given name.
pub(crate) fn is_name(bytes: &[u8], name: &str) -> (r: bool)
    ensures
        r == (bytes@ == key(name)),
{
    same_bytes(bytes, name.as_bytes())
}

/// `Dictionary::get`: the object under the key, if there is one.
#[verifier::external_body]
pub(crate) fn dict_get<'a>(dict: &'a lopdf::Dictionary, name: &str) -> (r: Option<
    &'a lopdf::Object,
>)
    ensures
        r is None <==> entry(dictionary_entries(*dict), key(name)) is None,
        r is Some ==> entry(dictionary_entries(*dict), key(name)) == Some(object_value(*r->0)),
{
    dict.get(name.as_bytes()).ok()
}

/// The public fields `dict` and `content` of a `lopdf::Stream`.
#[verifier::external_body]
pub(crate) fn stream_parts<'a>(stream: &'a lopdf::Stream) -> (r: (
    &'a lopdf::Dictionary,
    &'a Vec<u8>,
))
    ensures
        dictionary_entries(*r.0) == stream_entries(*stream),
        r.1@ == stream_bytes(*stream),
{
    (&stream.dict, &stream.content)
}

/// The value that is left when references are followed from `value`, at most `fuel` times: `None`
/// where one leads to no object or the chain is longer.
pub open spec fn followed(objects: Objects, value: PdfValue, fuel: nat) -> Option<PdfValue>
    decreases fuel,
{
    match value {
        PdfValue::Reference(id) => if fuel > 0 && objects.dom().contains(id) {
            followed(objects, objects[id], (fuel - 1) as nat)
        } else {
            None
        },
        _ => Some(value),
    }
}

/// The value that an object number stands for, a chain of up to 128 further references followed.
pub open spec fn resolved(objects: Objects, id: (u32, u16)) -> Option<PdfValue> {
    if objects.dom().contains(id) {
        followed(objects, objects[id], 128)
    } else {
        None
    }
}

/// `Document::get_object`: the object with the given number. Where that object is itself a
/// reference, up to 128 references are followed; the call fails where an object is missing or the
/// chain is longer.
#[verifier::external_body]
pub(crate) fn get_object<'a>(doc: &'a lopdf::Document, id: (u32, u16)) -> (r: Option<
    &'a lopdf::Object,
>)
    ensures
        r is None <==> resolved(document_objects(*doc), id) is None,
        r is Some ==> resolved(document_objects(*doc), id) == Some(object_value(*r->0)),
{
    doc.get_object(id).ok()
}

/// A list of entries as it is handed out by a dictionary.
pub open spec fn listed_entries(list: Seq<(&Vec<u8>, &lopdf::Object)>) -> Entries {
    list.map_values(|e: (&Vec<u8>, &lopdf::Object)| (e.0@, object_value(*e.1)))
}

/// `Dictionary::iter`: the entries in order.
#[verifier::external_body]
pub(crate) fn dict_entries<'a>(dict: &'a lopdf::Dictionary) -> (r: Vec<
    (&'a Vec<u8>, &'a lopdf::Object),
>)
    ensures
        listed_entries(r@) == dictionary_entries(*dict),
{
    dict.iter().collect()
}

/// The pages of a document as `lopdf` finds them, from the catalog that the trailer names down the
/// page tree: the number of each page and the object that describes it.
pub uninterp spec fn page_list(objects: Map<(u32, u16), PdfValue>, trailer: Seq<(Seq<u8>, PdfValue)>) -> Seq<(u32, (u32, u16))>;

/// The trailer of a document.
pub uninterp spec fn document_trailer(doc: lopdf::Document) -> Seq<(Seq<u8>, PdfValue)>;

/// The public field `trailer` of a `lopdf::Document`.
#[verifier::external_body]
pub(crate) fn get_trailer<'a>(doc: &'a lopdf::Document) -> (r: &'a lopdf::Dictionary)
    ensures
        dictionary_entries(*r) == document_trailer(*doc),
{
    &doc.trailer
}

/// `Document::get_pages`: the pages in order, numbered from 1 on. The call adds up the numbers of
/// pages that the nodes of the page tree claim to have, and makes room for as many; documents in which
/// a node claims too many are left out.
#[verifier::external_body]
pub(crate) fn get_pages(doc: &lopdf::Document) -> (r: Vec<(u32, (u32, u16))>)
    requires
        has_countable_pages(document_objects(*doc)),
    ensures
        r@ == page_list(document_objects(*doc), document_trailer(*doc)),
        r@.len() <= u32::MAX ==> forall|i: int| 0 <= i < r@.len() ==> (#[trigger] r@[i]).0 == i + 1,
        forall|i: int, j: int| 0 <= i < j < r@.len() ==> (#[trigger] r@[i]).0 < (#[trigger] r@[j]).0,
{
    doc.get_pages().into_iter().collect()
}

/// The keys of the public field `objects` of a `lopdf::Document`, in order.
#[verifier::external_body]
pub(crate) fn object_ids(doc: &lopdf::Document) -> (r: Vec<(u32, u16)>)
    ensures
        r@.no_duplicates(),
        r@.to_set() == document_objects(*doc).dom(),
{
    doc.objects.keys().copied().collect()
}

/// The fonts of a page as `lopdf` finds them in the page's resources and those of its parents.
pub uninterp spec fn page_font_list(objects: Map<(u32, u16), PdfValue>, page: (u32, u16)) -> Option<Seq<(Seq<u8>, Seq<(Seq<u8>, PdfValue)>)>>;

/// A list of fonts as it is handed out: the name of each and its dictionary.
pub open spec fn listed_fonts(list: Seq<(Vec<u8>, &lopdf::Dictionary)>) -> Seq<
    (Seq<u8>, Entries),
> {
    list.map_values(|f: (Vec<u8>, &lopdf::Dictionary)| (f.0@, dictionary_entries(*f.1)))
}

/// `Document::get_page_fonts`: the fonts of a page by name. `None` where the call fails. The call
/// follows the parents of the page one inside the other; a page that is too far from the root is left
/// out.
#[verifier::external_body]
pub(crate) fn get_page_fonts<'a>(doc: &'a lopdf::Document, page: (u32, u16)) -> (r: Option<
    Vec<(Vec<u8>, &'a lopdf::Dictionary)>,
>)
    requires
        is_near_root(document_objects(*doc), page),
    ensures
        r is None <==> page_font_list(document_objects(*doc), page) is None,
        r is Some ==> page_font_list(document_objects(*doc), page) == Some(listed_fonts(r->0@)),
{
    match doc.get_page_fonts(page) {
        Ok(fonts) => Some(fonts.into_iter().collect()),
        Err(_) => None,
    }
}

/// The resources of a page as `lopdf` finds them: the dictionary that the page holds itself, and
/// the objects that the page and its parents refer to.
pub uninterp spec fn page_resource_list(objects: Map<(u32, u16), PdfValue>, page: (u32, u16)) -> Option<(Option<Seq<(Seq<u8>, PdfValue)>>, Seq<(u32, u16)>)>;

/// `Document::get_page_resources`: the resources of a page. `None` where the call fails. The call
/// follows the parents of the page one inside the other; a page that is too far from the root is left
/// out.
#[verifier::external_body]
pub(crate) fn get_page_resources<'a>(doc: &'a lopdf::Document, page: (u32, u16)) -> (r: Option<
    (Option<&'a lopdf::Dictionary>, Vec<(u32, u16)>),
>)
    requires
        is_near_root(document_objects(*doc), page),
    ensures
        r is None <==> page_resource_list(document_objects(*doc), page) is None,
        r matches Some((own, ids)) ==> page_resource_list(document_objects(*doc), page) == Some(
            (
                match own {
                    Some(d) => Some(dictionary_entries(*d)),
                    None => None,
                },
                ids@,
            ),
        ),
{
    doc.get_page_resources(page).ok()
}

/// The content streams of a page as `lopdf` finds them under the page's `Contents`.
pub uninterp spec fn page_content_ids(objects: Map<(u32, u16), PdfValue>, page: (u32, u16)) -> Seq<(u32, u16)>;

/// `Document::get_page_contents`: the object numbers of a page's content streams.
#[verifier::external_body]
pub(crate) fn get_page_contents(doc: &lopdf::Document, page: (u32, u16)) -> (r: Vec<(u32, u16)>)
    ensures
        r@ == page_content_ids(document_objects(*doc), page),
{
    doc.get_page_contents(page)
}

/// The documents that `lopdf` may load from the given bytes, each given by its objects and its
/// trailer, or how it fails and how it words that.
pub uninterp spec fn loaded(bytes: Seq<u8>) -> Result<Set<(Map<(u32, u16), PdfValue>, Seq<(Seq<u8>, PdfValue)>)>, (FailureKind, Seq<char>)>;

/// `Document::load_mem`: loads a document. Whether and how that fails depends on the bytes alone.
/// There may be several documents: the loader reads compressed objects in parallel, and where two of
/// them have the same number either may be kept. The loader descends into nested arrays and
/// dictionaries, into streams of objects, and into the objects that tell the lengths of streams; it
/// adds up numbers of tables of offsets, and reads as many entries of a stream of offsets as that
/// claims to have; and it takes the lengths of what it decrypts for granted. Files in which that goes
/// too far, and encrypted files, are left out.
#[verifier::external_body]
pub(crate) fn load_mem(bytes: &[u8]) -> (r: Result<lopdf::Document, lopdf::Error>)
    requires
        is_loadable(bytes@),
    ensures
        match r {
            Ok(d) => loaded(bytes@) matches Ok(all) && all.contains(
                (document_objects(d), document_trailer(d)),
            ),
            Err(e) => loaded(bytes@) matches Err(f) && f.0 == error_failure(e) && (!(f.0 is Io)
                ==> f.1 == error_message(e)),
        },
{
    lopdf::Document::load_mem(bytes)
}

/// The number of pages that `lopdf` finds in the metadata of the given bytes, or how it fails and how
/// it words that.
pub uninterp spec fn metadata_pages(bytes: Seq<u8>) -> Result<u32, (FailureKind, Seq<char>)>;

/// `Document::load_metadata_mem`: the number of pages, without the rest of the document. The call
/// reads the file as [`load_mem`] does, and adds up the pages of the kids of a node that does not tell
/// how many it has; the same files are left out, and those with such a node.
#[verifier::external_body]
pub(crate) fn load_page_count(bytes: &[u8]) -> (r: Result<u32, lopdf::Error>)
    requires
        is_loadable(bytes@),
        has_told_counts(bytes@),
    ensures
        match r {
            Ok(n) => metadata_pages(bytes@) == Ok::<u32, (FailureKind, Seq<char>)>(n),
            Err(e) => metadata_pages(bytes@) matches Err(f) && f.0 == error_failure(e) && (!(f.0 is Io)
                ==> f.1 == error_message(e)),
        },
{
    Ok(lopdf::Document::load_metadata_mem(bytes)?.page_count)
}

/// A `lopdf::Stream` with the given public fields `dict` and `content`.
#[verifier::external_body]
pub(crate) fn new_stream(dict: &lopdf::Dictionary, content: &[u8]) -> (r: lopdf::Stream)
    ensures
        stream_entries(r) == dictionary_entries(*dict),
        stream_bytes(r) == content@,
{
    lopdf::Stream {
        dict: dict.clone(),
        content: content.to_vec(),
        allows_compression: true,
        start_position: None,
    }
}

/// The text that `lopdf` extracts from the pages with the given numbers, or how that fails and how
/// it words that.
pub uninterp spec fn extracted_text(objects: Map<(u32, u16), PdfValue>, trailer: Seq<(Seq<u8>, PdfValue)>, pages: Seq<u32>) -> Result<Seq<char>, (FailureKind, Seq<char>)>;

/// Whether the text of all pages of a document with the given numbers can be extracted.
pub open spec fn are_pages_readable(
    objects: Objects,
    list: Seq<(u32, (u32, u16))>,
    pages: Seq<u32>,
) -> bool {
    forall|i: int|
        0 <= i < list.len() && pages.contains((#[trigger] list[i]).0) ==> is_readable_page(
            objects,
            list[i].1,
        )
}

/// `Document::extract_text`: the text of the pages with the given numbers. It undoes filters, parses
/// contents and decodes strings as [`decompress`], [`decode_content`] and [`decode_text`] do; the same
/// input is left out. A font with a table that is too short is admitted on a page where no string can
/// hold a code without an entry.
#[verifier::external_body]
pub(crate) fn extract_text(doc: &lopdf::Document, pages: &Vec<u32>) -> (r: Result<
    String,
    lopdf::Error,
>)
    requires
        has_countable_pages(document_objects(*doc)),
        are_pages_readable(
            document_objects(*doc),
            page_list(document_objects(*doc), document_trailer(*doc)),
            pages@,
        ),
    ensures
        ({
            let text = extracted_text(document_objects(*doc), document_trailer(*doc), pages@);
            match r {
                Ok(t) => text == Ok::<Seq<char>, (FailureKind, Seq<char>)>(t@),
                Err(e) => text matches Err(f) && f.0 == error_failure(e) && (!(f.0 is Io) ==> f.1
                    == error_message(e)),
            }
        }),
{
    doc.extract_text(pages)
}

/// What is left of a stream when `lopdf` has undone its filters; `None` where it cannot.
pub uninterp spec fn decompressed(entries: Seq<(Seq<u8>, PdfValue)>, bytes: Seq<u8>) -> Option<Seq<u8>>;

/// `Stream::decompressed_content`: the bytes of a stream with its filters undone. The length of a
/// row of a predictor is a product, and a digit of an ASCII85 group is added, without a test for
/// overflow; input on which they overflow is left out.
#[verifier::external_body]
pub(crate) fn decompress(stream: &lopdf::Stream) -> (r: Option<Vec<u8>>)
    requires
        can_be_undone(stream_entries(*stream), stream_bytes(*stream)),
    ensures
        r is None <==> decompressed(stream_entries(*stream), stream_bytes(*stream)) is None,
        r is Some ==> decompressed(stream_entries(*stream), stream_bytes(*stream)) == Some(r->0@),
{
    stream.decompressed_content().ok()
}

/// `Clone` of a `lopdf::Object`: a copy stands for the same plain value.
#[verifier::external_body]
pub(crate) fn copy_object(object: &lopdf::Object) -> (r: lopdf::Object)
    ensures
        object_value(r) == object_value(*object),
{
    object.clone()
}

/// `Stream::decompressed_content` of a stream with other filters: the bytes of the stream with these
/// undone. The same input is left out as by [`decompress`].
#[verifier::external_body]
pub(crate) fn decompress_by(stream: &lopdf::Stream, filters: Vec<lopdf::Object>) -> (r: Option<
    Vec<u8>,
>)
    requires
        has_countable_rows(stream_entries(*stream)),
        filters_fit(
            stream_entries(*stream),
            object_values(filters@),
            stream_bytes(*stream),
            filters@.len() as int,
        ),
    ensures
        ({
            let part = with_filters(stream_entries(*stream), object_values(filters@));
            match r {
                Some(data) => decompressed(part, stream_bytes(*stream)) == Some(data@),
                None => decompressed(part, stream_bytes(*stream)) is None,
            }
        }),
{
    let mut part = stream.clone();
    part.dict.set("Filter", lopdf::Object::Array(filters));
    part.decompressed_content().ok()
}

#[verifier::external_type_specification]
#[verifier::external_body]
pub struct ExEncoding<'a>(lopdf::Encoding<'a>);

/// What the encoding that `lopdf` finds for a font makes of the rows of bytes that it can decode;
/// `None` where it finds no encoding.
pub uninterp spec fn font_encoding(objects: Map<(u32, u16), PdfValue>, font: Seq<(Seq<u8>, PdfValue)>) -> Option<Map<Seq<u8>, Seq<char>>>;

/// What an encoding makes of the rows of bytes that it can decode.
pub uninterp spec fn encoding_texts(encoding: lopdf::Encoding) -> Map<Seq<u8>, Seq<char>>;

/// `Dictionary::get_font_encoding`: the encoding of a font, from its `Encoding` or `ToUnicode`
/// entry. What it makes of bytes depends on the font and on the objects that the font refers to. A
/// ToUnicode stream has its filters undone as by [`decompress`]; the same input is left out, and so
/// are streams with dictionaries that are nested too deeply, and with more codes than can be listed.
#[verifier::external_body]
pub(crate) fn get_font_encoding<'a>(font: &'a lopdf::Dictionary, doc: &lopdf::Document) -> (r:
    Option<lopdf::Encoding<'a>>)
    requires
        is_usable_font(document_objects(*doc), dictionary_entries(*font)),
    ensures
        match r {
            Some(encoding) => font_encoding(document_objects(*doc), dictionary_entries(*font))
                == Some(encoding_texts(encoding)),
            None => font_encoding(document_objects(*doc), dictionary_entries(*font)) is None,
        },
{
    font.get_font_encoding(doc).ok()
}

/// Whether a row of bytes can be decoded by an encoding: it is that of a font that can be used, and no
/// code in the bytes lacks an entry.
pub open spec fn can_decode(encoding: lopdf::Encoding, bytes: Seq<u8>) -> bool {
    exists|objects: Objects, font: Entries|
        #![trigger font_encoding(objects, font)]
        font_encoding(objects, font) == Some(encoding_texts(encoding)) && is_decodable(
            objects,
            font,
            bytes,
        )
}

/// `Document::decode_text`: what an encoding makes of a row of bytes. In the table of a ToUnicode
/// stream the entry of each code is looked up by its place, and the place of a code in its range is
/// added to the last unit of a text of several; bytes with a code that has no entry, and the encoding
/// of a font with a text that cannot be counted up, are left out.
#[verifier::external_body]
pub(crate) fn decode_text(encoding: &lopdf::Encoding, bytes: &[u8]) -> (r: Option<String>)
    requires
        can_decode(*encoding, bytes@),
    ensures
        match r {
            Some(text) => encoding_texts(*encoding).dom().contains(bytes@)
                && encoding_texts(*encoding)[bytes@] == text@,
            None => !encoding_texts(*encoding).dom().contains(bytes@),
        },
{
    lopdf::Document::decode_text(encoding, bytes).ok()
}

/// The operations of a content stream as `lopdf` parses them, each with its operator and its
/// operands, or how it words that it cannot.
pub uninterp spec fn content_operations(bytes: Seq<u8>) -> Result<Seq<(Seq<char>, Seq<PdfValue>)>, Seq<char>>;

/// A list of operations as it is handed out, as plain contents.
pub open spec fn listed_operations(list: Seq<(String, Vec<lopdf::Object>)>) -> Seq<
    (Seq<char>, Seq<PdfValue>),
> {
    list.map_values(|op: (String, Vec<lopdf::Object>)| (op.0@, object_values(op.1@)))
}

/// `Content::decode`: the operations of a content stream. The parser descends into nested arrays and
/// dictionaries without a limit; it takes an inline image that is no mask to have a colour space, and
/// multiplies its sizes without a test. Input in which that goes wrong is left out.
#[verifier::external_body]
pub(crate) fn decode_content(bytes: &[u8]) -> (r: Result<
    Vec<(String, Vec<lopdf::Object>)>,
    lopdf::Error,
>)
    requires
        is_parsable(bytes@),
    ensures
        match r {
            Ok(list) => content_operations(bytes@) matches Ok(o) && o == listed_operations(list@),
            Err(e) => !(error_failure(e) is Io) && (content_operations(bytes@) matches Err(m) && m
                == error_message(e)),
        },
{
    let content = lopdf::content::Content::decode(bytes)?;
    Ok(content.operations.into_iter().map(|op| (op.operator, op.operands)).collect())
}

// ---------------------------------------------------------------------------------------------
// Small steps on plain values
// ---------------------------------------------------------------------------------------------

/// The dictionary that a value is.
pub open spec fn as_dictionary(value: PdfValue) -> Option<Entries> {
    match value {
        PdfValue::Dictionary(entries) => Some(entries),
        _ => None,
    }
}

/// The dictionary that an object number stands for.
pub open spec fn resolved_dictionary(objects: Objects, id: (u32, u16)) -> Option<Entries> {
    match resolved(objects, id) {
        Some(v) => as_dictionary(v),
        None => None,
    }
}

/// The stream that an object number stands for: its dictionary and its bytes.
pub open spec fn resolved_stream(objects: Objects, id: (u32, u16)) -> Option<
    (Entries, Seq<u8>),
> {
    match resolved(objects, id) {
        Some(PdfValue::Stream(entries, bytes)) => Some((entries, bytes)),
        _ => None,
    }
}

/// The dictionary that a value is, or refers to.
pub open spec fn dictionary_at(objects: Objects, value: PdfValue) -> Option<Entries> {
    match value {
        PdfValue::Reference(id) => resolved_dictionary(objects, id),
        _ => as_dictionary(value),
    }
}

/// The dictionary under a key, or that the value under the key refers to.
pub open spec fn dictionary_under(objects: Objects, entries: Entries, key: Seq<u8>) -> Option<
    Entries,
> {
    match entry(entries, key) {
        Some(v) => dictionary_at(objects, v),
        None => None,
    }
}

/// The dictionary with the given number.
pub(crate) fn get_dictionary<'a>(doc: &'a lopdf::Document, id: (u32, u16)) -> (r: Option<
    &'a lopdf::Dictionary,
>)
    ensures
        r is None <==> resolved_dictionary(document_objects(*doc), id) is None,
        r is Some ==> resolved_dictionary(document_objects(*doc), id) == Some(
            dictionary_entries(*r->0),
        ),
{
    match get_object(doc, id) {
        Some(object) => match shape_of(object) {
            Shape::Dictionary(d) => Some(d),
            _ => None,
        },
        None => None,
    }
}

/// The stream with the given number.
pub(crate) fn get_stream<'a>(doc: &'a lopdf::Document, id: (u32, u16)) -> (r: Option<
    &'a lopdf::Stream,
>)
    ensures
        r is None <==> resolved_stream(document_objects(*doc), id) is None,
        r is Some ==> resolved_stream(document_objects(*doc), id) == Some(
            (stream_entries(*r->0), stream_bytes(*r->0)),
        ),
{
    match get_object(doc, id) {
        Some(object) => match shape_of(object) {
            Shape::Stream(s) => Some(s),
            _ => None,
        },
        None => None,
    }
}

/// The dictionary that an object is, or refers to.
pub(crate) fn resolve_dict<'a>(doc: &'a lopdf::Document, object: &'a lopdf::Object) -> (r: Option<
    &'a lopdf::Dictionary,
>)
    ensures
        r is None <==> dictionary_at(document_objects(*doc), object_value(*object)) is None,
        r is Some ==> dictionary_at(document_objects(*doc), object_value(*object)) == Some(
            dictionary_entries(*r->0),
        ),
{
    match shape_of(object) {
        Shape::Dictionary(d) => Some(d),
        Shape::Reference(id) => get_dictionary(doc, id),
        _ => None,
    }
}

/// The dictionary under a key, or that the value under the key refers to.
pub(crate) fn get_dict_under<'a>(
    doc: &'a lopdf::Document,
    dict: &'a lopdf::Dictionary,
    name: &str,
) -> (r: Option<&'a lopdf::Dictionary>)
    ensures
        r is None <==> dictionary_under(document_objects(*doc), dictionary_entries(*dict), key(name))
            is None,
        r is Some ==> dictionary_under(document_objects(*doc), dictionary_entries(*dict), key(name))
            == Some(dictionary_entries(*r->0)),
{
    match dict_get(dict, name) {
        Some(object) => resolve_dict(doc, object),
        None => None,
    }
}

// ---------------------------------------------------------------------------------------------
// Numbers of pages
// ---------------------------------------------------------------------------------------------

/// The whole number that a value is, or refers to.
pub open spec fn integer_at(objects: Objects, value: PdfValue) -> Option<int> {
    match value {
        PdfValue::Integer(i) => Some(i as int),
        PdfValue::Reference(id) => match resolved(objects, id) {
            Some(PdfValue::Integer(i)) => Some(i as int),
            _ => None,
        },
        _ => None,
    }
}

/// How many pages a kid of a node of the page tree claims to have: its `Count` where it is a node
/// itself, and else one.
pub open spec fn claimed_pages(objects: Objects, kid: PdfValue) -> int {
    match kid {
        PdfValue::Reference(id) => match resolved_dictionary(objects, id) {
            Some(node) => if entry(node, key("Type")) == Some(PdfValue::Name(key("Pages"))) {
                match entry(node, key("Count")) {
                    Some(value) => match integer_at(objects, value) {
                        Some(count) => if count > 0 {
                            count
                        } else {
                            0
                        },
                        None => 0,
                    },
                    None => 0,
                }
            } else {
                1
            },
            None => 1,
        },
        _ => 1,
    }
}

/// How many pages the first `n` kids of a node claim to have.
pub open spec fn claimed_by(objects: Objects, kids: Seq<PdfValue>, n: int) -> int
    decreases n,
{
    if n <= 0 {
        0
    } else {
        claimed_by(objects, kids, n - 1) + claimed_pages(objects, kids[n - 1])
    }
}

/// How many more pages than the document has objects a node may claim to have.
pub const MAX_MISSING_PAGES: usize = 0x1_0000;

/// Whether the kids of a node of the page tree, if the object with the given number is one, do not
/// claim to have too many pages.
pub open spec fn has_countable_kids(objects: Objects, id: (u32, u16)) -> bool {
    match resolved_dictionary(objects, id) {
        Some(node) => match entry(node, key("Kids")) {
            Some(value) => match array_at(objects, value) {
                Some(kids) => claimed_by(objects, kids, kids.len() as int) <= objects.dom().len()
                    + MAX_MISSING_PAGES,
                None => true,
            },
            None => true,
        },
        None => true,
    }
}

/// Whether no node of the page tree claims to have too many pages.
pub open spec fn has_countable_pages(objects: Objects) -> bool {
    forall|id: (u32, u16)| #[trigger]
        objects.dom().contains(id) ==> has_countable_kids(objects, id)
}

/// The whole number that an object is, or refers to.
fn resolve_integer(doc: &lopdf::Document, object: &lopdf::Object) -> (r: Option<i64>)
    ensures
        match r {
            Some(i) => integer_at(document_objects(*doc), object_value(*object)) == Some(i as int),
            None => integer_at(document_objects(*doc), object_value(*object)) is None,
        },
{
    match shape_of(object) {
        Shape::Integer(i) => Some(i),
        Shape::Reference(id) => match get_object(doc, id) {
            Some(target) => match shape_of(target) {
                Shape::Integer(i) => Some(i),
                _ => None,
            },
            None => None,
        },
        _ => None,
    }
}

/// How many pages a kid of a node of the page tree claims to have.
fn count_claimed(doc: &lopdf::Document, kid: &lopdf::Object) -> (r: u64)
    ensures
        r == claimed_pages(document_objects(*doc), object_value(*kid)),
        r <= i64::MAX,
{
    let node = match shape_of(kid) {
        Shape::Reference(id) => match get_dictionary(doc, id) {
            Some(d) => d,
            None => {
                return 1;
            },
        },
        _ => {
            return 1;
        },
    };
    let is_node: bool = match dict_get(node, "Type") {
        Some(object) => match shape_of(object) {
            Shape::Name(name) => is_name(name.as_slice(), "Pages"),
            _ => false,
        },
        None => false,
    };
    if !is_node {
        return 1;
    }
    match dict_get(node, "Count") {
        Some(object) => match resolve_integer(doc, object) {
            Some(count) => if count > 0 {
                count as u64
            } else {
                0
            },
            None => 0,
        },
        None => 0,
    }
}

/// What kids claim grows with their number.
proof fn lemma_claimed_grows(objects: Objects, kids: Seq<PdfValue>, k: int, n: int)
    requires
        k <= n,
    ensures
        claimed_by(objects, kids, k) <= claimed_by(objects, kids, n),
    decreases n,
{
    if k < n && 0 < n {
        lemma_claimed_grows(objects, kids, k, n - 1);
    }
}

/// Whether the kids of a node of the page tree do not claim to have too many pages.
fn check_kids(doc: &lopdf::Document, id: (u32, u16), objects_len: usize) -> (r: bool)
    requires
        objects_len == document_objects(*doc).dom().len(),
    ensures
        r == has_countable_kids(document_objects(*doc), id),
{
    let ghost objects = document_objects(*doc);
    let kids = match get_dictionary(doc, id) {
        Some(node) => match dict_get(node, "Kids") {
            Some(object) => match resolve_array(doc, object) {
                Some(list) => list,
                None => {
                    return true;
                },
            },
            None => {
                return true;
            },
        },
        None => {
            return true;
        },
    };
    let ghost values = object_values(kids@);
    let most: u128 = objects_len as u128 + MAX_MISSING_PAGES as u128;
    let mut total: u128 = 0;
    let mut k: usize = 0;
    while k < kids.len()
        invariant
            k <= kids@.len(),
            objects == document_objects(*doc),
            values == object_values(kids@),
            most == objects.dom().len() + MAX_MISSING_PAGES,
            most <= usize::MAX + MAX_MISSING_PAGES,
            total == claimed_by(objects, values, k as int),
            total <= most,
            !has_countable_kids(objects, id) ==> claimed_by(objects, values, values.len() as int)
                > most,
            has_countable_kids(objects, id) ==> claimed_by(objects, values, values.len() as int)
                <= most,
        decreases kids@.len() - k,
    {
        assert(values[k as int] == object_value(kids@[k as int]));
        total = total + count_claimed(doc, &kids[k]) as u128;
        k = k + 1;
        if total > most {
            proof {
                lemma_claimed_grows(objects, values, k as int, values.len() as int);
            }
            return false;
        }
    }
    true
}

/// Whether no node of the page tree claims to have too many pages.
pub(crate) fn check_pages(doc: &lopdf::Document) -> (r: bool)
    ensures
        r == has_countable_pages(document_objects(*doc)),
{
    let ghost objects = document_objects(*doc);
    let ids = object_ids(doc);
    proof {
        ids@.unique_seq_to_set();
    }
    let mut i: usize = 0;
    while i < ids.len()
        invariant
            i <= ids@.len(),
            ids@.len() == objects.dom().len(),
            objects == document_objects(*doc),
            ids@.to_set() == objects.dom(),
            forall|k: int| 0 <= k < i ==> has_countable_kids(objects, #[trigger] ids@[k]),
        decreases ids@.len() - i,
    {
        if !check_kids(doc, ids[i], ids.len()) {
            assert(ids@.to_set().contains(ids@[i as int]));
            return false;
        }
        i = i + 1;
    }
    assert forall|id: (u32, u16)| #[trigger]
        objects.dom().contains(id) implies has_countable_kids(objects, id) by {
        assert(ids@.to_set().contains(id));
        assert(ids@.contains(id));
        let k = ids@.index_of(id);
        assert(has_countable_kids(objects, ids@[k]));
    }
    true
}

/// How many objects a document has.
pub(crate) fn object_count(doc: &lopdf::Document) -> (r: usize)
    ensures
        r == document_objects(*doc).dom().len(),
{
    let ids = object_ids(doc);
    proof {
        ids@.unique_seq_to_set();
    }
    ids.len()
}

/// The pages of a document; none where they cannot be counted.
pub open spec fn known_pages(objects: Objects, trailer: Entries) -> Seq<(u32, (u32, u16))> {
    if has_countable_pages(objects) {
        page_list(objects, trailer)
    } else {
        seq![]
    }
}

/// The pages of a document, numbered from 1 on; none where they cannot be counted.
pub(crate) fn find_pages(doc: &lopdf::Document) -> (r: Vec<(u32, (u32, u16))>)
    ensures
        r@ == known_pages(document_objects(*doc), document_trailer(*doc)),
        r@.len() <= u32::MAX ==> forall|i: int| 0 <= i < r@.len() ==> (#[trigger] r@[i]).0 == i + 1,
        forall|i: int, j: int| 0 <= i < j < r@.len() ==> (#[trigger] r@[i]).0 < (#[trigger] r@[j]).0,
{
    if check_pages(doc) {
        get_pages(doc)
    } else {
        Vec::new()
    }
}

// ---------------------------------------------------------------------------------------------
// Parents of pages
// ---------------------------------------------------------------------------------------------

/// How many parents a page may have.
pub const MAX_PARENTS: usize = 1000;

/// Whether a node of the page tree has up to `most` parents.
pub open spec fn has_few_parents(objects: Objects, node: Entries, most: nat) -> bool
    decreases most,
{
    match entry(node, key("Parent")) {
        Some(PdfValue::Reference(id)) => match resolved_dictionary(objects, id) {
            Some(parent) => most > 0 && has_few_parents(objects, parent, (most - 1) as nat),
            None => true,
        },
        _ => true,
    }
}

/// Whether a page is near enough to the root of the page tree to follow its parents.
pub open spec fn is_near_root(objects: Objects, page: (u32, u16)) -> bool {
    match resolved_dictionary(objects, page) {
        Some(node) => has_few_parents(objects, node, MAX_PARENTS as nat),
        None => true,
    }
}

/// Whether a page is near enough to the root of the page tree to follow its parents.
pub(crate) fn check_near_root(doc: &lopdf::Document, page: (u32, u16)) -> (r: bool)
    ensures
        r == is_near_root(document_objects(*doc), page),
{
    let ghost objects = document_objects(*doc);
    let mut node = match get_dictionary(doc, page) {
        Some(d) => d,
        None => {
            return true;
        },
    };
    let mut left: usize = MAX_PARENTS;
    loop
        invariant
            objects == document_objects(*doc),
            has_few_parents(objects, dictionary_entries(*node), left as nat) == is_near_root(
                objects,
                page,
            ),
        decreases left,
    {
        let id: (u32, u16) = match dict_get(node, "Parent") {
            Some(object) => match shape_of(object) {
                Shape::Reference(id) => id,
                _ => {
                    return true;
                },
            },
            None => {
                return true;
            },
        };
        node = match get_dictionary(doc, id) {
            Some(d) => d,
            None => {
                return true;
            },
        };
        if left == 0 {
            return false;
        }
        left = left - 1;
    }
}

/// The fonts of a page by name; `None` where they cannot be found.
pub open spec fn known_fonts(objects: Objects, page: (u32, u16)) -> Option<
    Seq<(Seq<u8>, Entries)>,
> {
    if is_near_root(objects, page) {
        page_font_list(objects, page)
    } else {
        None
    }
}

/// The fonts of a page by name.
pub(crate) fn find_page_fonts<'a>(doc: &'a lopdf::Document, page: (u32, u16)) -> (r: Option<
    Vec<(Vec<u8>, &'a lopdf::Dictionary)>,
>)
    ensures
        r is None <==> known_fonts(document_objects(*doc), page) is None,
        r is Some ==> known_fonts(document_objects(*doc), page) == Some(listed_fonts(r->0@)),
{
    if check_near_root(doc, page) {
        get_page_fonts(doc, page)
    } else {
        None
    }
}

/// The resources of a page; `None` where they cannot be found.
pub open spec fn known_resources(objects: Objects, page: (u32, u16)) -> Option<
    (Option<Entries>, Seq<(u32, u16)>),
> {
    if is_near_root(objects, page) {
        page_resource_list(objects, page)
    } else {
        None
    }
}

/// The resources of a page.
pub(crate) fn find_page_resources<'a>(doc: &'a lopdf::Document, page: (u32, u16)) -> (r: Option<
    (Option<&'a lopdf::Dictionary>, Vec<(u32, u16)>),
>)
    ensures
        r is None <==> known_resources(document_objects(*doc), page) is None,
        r matches Some((own, ids)) ==> known_resources(document_objects(*doc), page) == Some(
            (
                match own {
                    Some(d) => Some(dictionary_entries(*d)),
                    None => None,
                },
                ids@,
            ),
        ),
{
    if check_near_root(doc, page) {
        get_page_resources(doc, page)
    } else {
        None
    }
}

} // verus!
