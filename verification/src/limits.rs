//! What `lopdf` can be asked without it giving up.
//!
//! On some malformed input `lopdf` does not return an error but stops the program: where a number
//! overflows while filters are undone or texts are counted up, where objects are nested too deeply,
//! where an inline image has no colour space, and where a table of a ToUnicode stream is shorter than
//! its range. The functions of this module find such input beforehand.

use crate::error::message_of;
use crate::lexing::{
    check_class, check_goes_on, check_shallow, find_mark, find_name_end, find_nested_end,
    find_place, goes_on, hex_byte_value, is_gap, is_hex_byte, is_plain, is_shallow, mark_at,
    name_end, nested_end, opens_at, place_behind, run_end, skip_run, skip_space, space_end,
    ByteClass, MAX_DEPTH, Mark, Place,
};
use crate::pdf::{
    check_near_root, content_operations, copy_object, decode_content, decode_text, decompress,
    decompress_by, decompressed, dict_get, dictionary_entries, document_objects, encoding_texts,
    entry, find_page_fonts, font_encoding, get_font_encoding, get_page_contents, get_stream,
    is_near_root, key, known_fonts, listed_fonts, listed_operations, object_value, object_values,
    page_content_ids, resolved_stream, same_bytes, shape_of, stream_bytes, stream_entries,
    stream_parts, Entries, Objects, PdfValue, Shape,
};
use vstd::prelude::*;
use vstd::slice::slice_subrange;

verus! {

// ---------------------------------------------------------------------------------------------
// Filters
// ---------------------------------------------------------------------------------------------

/// The whole number that a value is, at least `least`; another value stands for `least`.
pub open spec fn number_at_least(value: Option<PdfValue>, least: int) -> int {
    match value {
        Some(PdfValue::Integer(i)) => if i >= least {
            i as int
        } else {
            least
        },
        _ => least,
    }
}

/// Whether rows of pixels with the given number of columns, colours and bits can be counted.
pub open spec fn is_countable(columns: int, colors: int, bits: int) -> bool {
    colors * bits <= usize::MAX && colors * bits / 8 * columns <= usize::MAX
}

/// Whether the rows of the predictor of a stream can be counted.
pub open spec fn has_countable_rows(entries: Entries) -> bool {
    match entry(entries, key("DecodeParms")) {
        Some(PdfValue::Dictionary(params)) => match entry(params, key("Predictor")) {
            Some(PdfValue::Integer(p)) => 10 <= p <= 15 ==> is_countable(
                number_at_least(entry(params, key("Columns")), 1),
                number_at_least(entry(params, key("Colors")), 1),
                number_at_least(entry(params, key("BitsPerComponent")), 8),
            ),
            _ => true,
        },
        _ => true,
    }
}

/// Whether the last group of an ASCII85 stream, filled up with `n` digits, does not overflow when a
/// digit is added.
pub open spec fn fill_fits(value: int, n: nat) -> bool
    decreases n,
{
    n == 0 || value * 85 > u32::MAX || (value * 85 + 84 <= u32::MAX && fill_fits(
        value * 85 + 84,
        (n - 1) as nat,
    ))
}

/// Whether a byte is white space.
pub open spec fn is_blank_byte(b: u8) -> bool {
    b == 32 || b == 9 || b == 10 || b == 12 || b == 13
}

/// Whether no group of an ASCII85 stream overflows when a digit is added, from byte `i` on. The
/// group so far has `count` digits, which make `value`.
pub open spec fn groups_fit(bytes: Seq<u8>, i: int, value: int, count: nat) -> bool
    decreases bytes.len() - i,
{
    if i >= bytes.len() || !(bytes[i] == 122 || is_blank_byte(bytes[i]) || 33 <= bytes[i] <= 117) {
        count == 0 || fill_fits(value, (5 - count) as nat)
    } else if bytes[i] == 122 {
        count != 0 || groups_fit(bytes, i + 1, value, count)
    } else if is_blank_byte(bytes[i]) {
        groups_fit(bytes, i + 1, value, count)
    } else {
        let next = value * 85 + bytes[i] - 33;
        ||| value * 85 > u32::MAX
        ||| next <= u32::MAX && groups_fit(
            bytes,
            i + 1,
            if count == 4 {
                0
            } else {
                next
            },
            if count == 4 {
                0
            } else {
                count + 1
            },
        )
    }
}

/// The bytes of an ASCII85 stream without its end marker `~>`.
pub open spec fn unmarked(bytes: Seq<u8>) -> Seq<u8> {
    let n = bytes.len() as int;
    if n >= 2 && bytes[n - 2] == 126 && bytes[n - 1] == 62 {
        bytes.take(n - 2)
    } else {
        bytes
    }
}

/// Whether the groups of an ASCII85 stream fit.
pub open spec fn has_fitting_groups(bytes: Seq<u8>) -> bool {
    groups_fit(unmarked(bytes), 0, 0, 0)
}

/// Whether a value is the name of the ASCII85 filter.
pub open spec fn is_ascii85(value: PdfValue) -> bool {
    value == PdfValue::Name(key("ASCII85Decode"))
}

/// The entries of a stream with other filters.
pub open spec fn with_filters(entries: Entries, names: Seq<PdfValue>) -> Entries {
    if entry(entries, key("Filter")) is Some {
        entries.map_values(
            |e: (Seq<u8>, PdfValue)|
                if e.0 == key("Filter") {
                    (e.0, PdfValue::Array(names))
                } else {
                    e
                },
        )
    } else {
        entries.push((key("Filter"), PdfValue::Array(names)))
    }
}

/// The bytes of a stream with the first `n` of the given filters undone.
pub open spec fn partly_undone(
    entries: Entries,
    names: Seq<PdfValue>,
    bytes: Seq<u8>,
    n: int,
) -> Option<Seq<u8>> {
    if n <= 0 {
        Some(bytes)
    } else {
        decompressed(with_filters(entries, names.take(n)), bytes)
    }
}

/// Whether the groups of those among the first `n` filters fit that are ASCII85 filters.
pub open spec fn filters_fit(
    entries: Entries,
    names: Seq<PdfValue>,
    bytes: Seq<u8>,
    n: int,
) -> bool
    decreases n,
{
    n <= 0 || (filters_fit(entries, names, bytes, n - 1) && (is_ascii85(names[n - 1])
        ==> match partly_undone(entries, names, bytes, n - 1) {
        Some(data) => has_fitting_groups(data),
        None => true,
    }))
}

/// Whether the groups of ASCII85 filters fit.
pub open spec fn has_fitting_filters(entries: Entries, bytes: Seq<u8>) -> bool {
    match entry(entries, key("Filter")) {
        Some(PdfValue::Array(names)) => filters_fit(entries, names, bytes, names.len() as int),
        Some(name) => is_ascii85(name) ==> has_fitting_groups(bytes),
        None => true,
    }
}

/// Whether the filters of a stream can be tried.
pub open spec fn can_be_undone(entries: Entries, bytes: Seq<u8>) -> bool {
    has_countable_rows(entries) && has_fitting_filters(entries, bytes)
}

/// The bytes of a stream with its filters undone; `None` where they cannot be.
pub open spec fn undone(entries: Entries, bytes: Seq<u8>) -> Option<Seq<u8>> {
    if can_be_undone(entries, bytes) {
        decompressed(entries, bytes)
    } else {
        None
    }
}

/// The whole number under a key, at least `least`.
fn get_at_least(dict: &lopdf::Dictionary, name: &str, least: i64) -> (r: i64)
    ensures
        r == number_at_least(entry(dictionary_entries(*dict), key(name)), least as int),
        r >= least,
{
    match dict_get(dict, name) {
        Some(object) => match shape_of(object) {
            Shape::Integer(i) => if i >= least {
                i
            } else {
                least
            },
            _ => least,
        },
        None => least,
    }
}

/// Whether the rows of the predictor of a stream can be counted.
fn can_count_rows(dict: &lopdf::Dictionary) -> (r: bool)
    ensures
        r == has_countable_rows(dictionary_entries(*dict)),
{
    let params = match dict_get(dict, "DecodeParms") {
        Some(object) => match shape_of(object) {
            Shape::Dictionary(d) => d,
            _ => {
                return true;
            },
        },
        None => {
            return true;
        },
    };
    let predictor: i64 = match dict_get(params, "Predictor") {
        Some(object) => match shape_of(object) {
            Shape::Integer(i) => i,
            _ => {
                return true;
            },
        },
        None => {
            return true;
        },
    };
    if predictor < 10 || predictor > 15 {
        return true;
    }
    let columns: i64 = get_at_least(params, "Columns", 1);
    let colors: i64 = get_at_least(params, "Colors", 1);
    let bits: i64 = get_at_least(params, "BitsPerComponent", 8);
    let most: u128 = usize::MAX as u128;
    assert(colors * bits <= 0x7FFF_FFFF_FFFF_FFFF * 0x7FFF_FFFF_FFFF_FFFF) by (nonlinear_arith)
        requires
            1 <= colors <= 0x7FFF_FFFF_FFFF_FFFF,
            8 <= bits <= 0x7FFF_FFFF_FFFF_FFFF,
    ;
    assert(colors * bits >= 0) by (nonlinear_arith)
        requires
            1 <= colors,
            8 <= bits,
    ;
    let pixel: u128 = colors as u128 * bits as u128;
    if pixel > most {
        return false;
    }
    let bytes: u128 = pixel / 8;
    assert(bytes * columns <= 0x2000_0000_0000_0000 * 0x7FFF_FFFF_FFFF_FFFF) by (nonlinear_arith)
        requires
            0 <= bytes <= 0x2000_0000_0000_0000,
            1 <= columns <= 0x7FFF_FFFF_FFFF_FFFF,
    ;
    bytes * columns as u128 <= most
}

/// Whether the last group of an ASCII85 stream, filled up, does not overflow.
fn check_fill(value: u64, n: usize) -> (r: bool)
    requires
        value <= u32::MAX,
    ensures
        r == fill_fits(value as int, n as nat),
    decreases n,
{
    if n == 0 || value * 85 > u32::MAX as u64 {
        return true;
    }
    value * 85 + 84 <= u32::MAX as u64 && check_fill(value * 85 + 84, n - 1)
}

/// Whether the groups of an ASCII85 stream fit.
fn check_groups(bytes: &Vec<u8>) -> (r: bool)
    ensures
        r == has_fitting_groups(bytes@),
{
    let ghost all = unmarked(bytes@);
    let mut n: usize = bytes.len();
    if n >= 2 && bytes[n - 2] == 126 && bytes[n - 1] == 62 {
        n = n - 2;
    }
    assert(all =~= bytes@.take(n as int));
    let mut value: u64 = 0;
    let mut count: usize = 0;
    let mut i: usize = 0;
    while i < n
        invariant
            i <= n <= bytes@.len(),
            all == bytes@.take(n as int),
            all == unmarked(bytes@),
            value <= u32::MAX,
            count <= 4,
            groups_fit(all, 0, 0, 0) == groups_fit(all, i as int, value as int, count as nat),
        decreases n - i,
    {
        let b: u8 = bytes[i];
        assert(all[i as int] == b);
        if b == 122 {
            if count != 0 {
                return true;
            }
        } else if !(b == 32 || b == 9 || b == 10 || b == 12 || b == 13) {
            if b < 33 || b > 117 {
                return count == 0 || check_fill(value, 5 - count);
            }
            if value * 85 > u32::MAX as u64 {
                return true;
            }
            let next: u64 = value * 85 + (b - 33) as u64;
            if next > u32::MAX as u64 {
                return false;
            }
            if count == 4 {
                value = 0;
                count = 0;
            } else {
                value = next;
                count = count + 1;
            }
        }
        i = i + 1;
    }
    count == 0 || check_fill(value, 5 - count)
}

/// Whether an object is the name of the ASCII85 filter.
fn names_ascii85(object: &lopdf::Object) -> (r: bool)
    ensures
        r == is_ascii85(object_value(*object)),
{
    match shape_of(object) {
        Shape::Name(n) => same_bytes(n.as_slice(), "ASCII85Decode".as_bytes()),
        _ => false,
    }
}

/// Whether the groups of ASCII85 filters fit.
fn check_filters(stream: &lopdf::Stream) -> (r: bool)
    requires
        has_countable_rows(stream_entries(*stream)),
    ensures
        r == has_fitting_filters(stream_entries(*stream), stream_bytes(*stream)),
{
    let (dict, bytes) = stream_parts(stream);
    let filter = match dict_get(dict, "Filter") {
        Some(object) => object,
        None => {
            return true;
        },
    };
    let names = match shape_of(filter) {
        Shape::Array(names) => names,
        _ => {
            return !names_ascii85(filter) || check_groups(bytes);
        },
    };
    let ghost values = object_values(names@);
    let ghost entries = stream_entries(*stream);
    let mut k: usize = 0;
    while k < names.len()
        invariant
            k <= names@.len(),
            values == object_values(names@),
            entries == stream_entries(*stream),
            bytes@ == stream_bytes(*stream),
            has_countable_rows(entries),
            entry(entries, key("Filter")) == Some(PdfValue::Array(values)),
            filters_fit(entries, values, bytes@, k as int),
        decreases names@.len() - k,
    {
        assert(values[k as int] == object_value(names@[k as int]));
        if names_ascii85(&names[k]) {
            let fits: bool = if k == 0 {
                check_groups(bytes)
            } else {
                match undo_first(stream, names, k) {
                    Some(data) => check_groups(&data),
                    None => true,
                }
            };
            if !fits {
                assert(!filters_fit(entries, values, bytes@, k + 1));
                proof {
                    if filters_fit(entries, values, bytes@, values.len() as int) {
                        lemma_filters_fit(entries, values, bytes@, k + 1, values.len() as int);
                    }
                }
                return false;
            }
        }
        k = k + 1;
    }
    true
}

/// The bytes of a stream with the first of the given filters undone.
fn undo_first(stream: &lopdf::Stream, names: &Vec<lopdf::Object>, n: usize) -> (r: Option<Vec<u8>>)
    requires
        0 < n <= names@.len(),
        has_countable_rows(stream_entries(*stream)),
        filters_fit(
            stream_entries(*stream),
            object_values(names@),
            stream_bytes(*stream),
            n as int,
        ),
    ensures
        ({
            let part = partly_undone(
                stream_entries(*stream),
                object_values(names@),
                stream_bytes(*stream),
                n as int,
            );
            match r {
                Some(data) => part == Some(data@),
                None => part is None,
            }
        }),
{
    let ghost values = object_values(names@);
    let mut first: Vec<lopdf::Object> = Vec::new();
    let mut k: usize = 0;
    while k < n
        invariant
            k <= n <= names@.len(),
            values == object_values(names@),
            first@.len() == k,
            forall|j: int| 0 <= j < k ==> object_value(#[trigger] first@[j]) == values[j],
        decreases n - k,
    {
        first.push(copy_object(&names[k]));
        k = k + 1;
    }
    proof {
        assert(object_values(first@) =~= values.take(n as int));
        lemma_first_filters(
            stream_entries(*stream),
            values,
            stream_bytes(*stream),
            n as int,
            n as int,
        );
    }
    decompress_by(stream, first)
}

/// Whether filters fit depends on the first ones only.
proof fn lemma_first_filters(
    entries: Entries,
    names: Seq<PdfValue>,
    bytes: Seq<u8>,
    m: int,
    n: int,
)
    requires
        m <= n <= names.len(),
    ensures
        filters_fit(entries, names, bytes, m) == filters_fit(entries, names.take(n), bytes, m),
    decreases m,
{
    if m > 0 {
        lemma_first_filters(entries, names, bytes, m - 1, n);
        assert(names.take(n).take(m - 1) =~= names.take(m - 1));
    }
}

/// Where all filters fit, the first ones do.
proof fn lemma_filters_fit(
    entries: Entries,
    names: Seq<PdfValue>,
    bytes: Seq<u8>,
    k: int,
    n: int,
)
    requires
        k <= n,
        filters_fit(entries, names, bytes, n),
    ensures
        filters_fit(entries, names, bytes, k),
    decreases n,
{
    if 0 < n && k < n {
        lemma_filters_fit(entries, names, bytes, k, n - 1);
    }
}

/// Whether the filters of a stream can be tried.
pub(crate) fn check_undoable(stream: &lopdf::Stream) -> (r: bool)
    ensures
        r == can_be_undone(stream_entries(*stream), stream_bytes(*stream)),
{
    can_count_rows(stream_parts(stream).0) && check_filters(stream)
}

/// The bytes of a stream with its filters undone.
pub(crate) fn undo_filters(stream: &lopdf::Stream) -> (r: Option<Vec<u8>>)
    ensures
        r is None <==> undone(stream_entries(*stream), stream_bytes(*stream)) is None,
        r is Some ==> undone(stream_entries(*stream), stream_bytes(*stream)) == Some(r->0@),
{
    if check_undoable(stream) {
        decompress(stream)
    } else {
        None
    }
}

// ---------------------------------------------------------------------------------------------
// Inline images
// ---------------------------------------------------------------------------------------------

/// Whether one of two names is written at a position.
pub open spec fn either_end(bytes: Seq<u8>, p: int, short: Seq<u8>, long: Seq<u8>) -> bool {
    name_end(bytes, p, short) is Some || name_end(bytes, p, long) is Some
}

/// Where the value that starts at `i` in the dictionary of an inline image ends; `None` where no
/// value does.
pub open spec fn value_end(bytes: Seq<u8>, i: int) -> Option<int> {
    if i < 0 || i >= bytes.len() {
        None
    } else if is_plain(bytes[i]) {
        Some(plain_end(bytes, i))
    } else if bytes[i] == 47 {
        Some(run_end(bytes, ByteClass::Regular, i + 1))
    } else if mark_at(bytes, i) == Mark::Leads(Place::Text) {
        token_end(bytes, i + 1, Place::Text, 1)
    } else if mark_at(bytes, i) == Mark::Leads(Place::Hex) {
        token_end(bytes, i + 1, Place::Hex, 1)
    } else if opens_at(bytes, i) {
        match nested_end(bytes, i) {
            Some(end) => end,
            None => None,
        }
    } else {
        None
    }
}

/// Where numbers and words end that are written one behind the other from `i` on.
pub open spec fn plain_end(bytes: Seq<u8>, i: int) -> int
    decreases bytes.len() - i,
{
    let e = run_end(bytes, ByteClass::Plain, i);
    let s = space_end(bytes, e, false);
    if i < e <= s < bytes.len() && is_plain(bytes[s]) {
        plain_end(bytes, s)
    } else {
        e
    }
}

/// Where a string ends of which position `p` is part.
pub open spec fn token_end(bytes: Seq<u8>, p: int, place: Place, open: int) -> Option<int>
    decreases bytes.len() - p,
{
    if place == Place::Between {
        Some(p)
    } else if p < 0 || p >= bytes.len() {
        None
    } else {
        let (next, left) = place_behind(place, open, bytes[p]);
        token_end(bytes, p + 1, next, left)
    }
}

/// Whether a value that gives a size of an image is in range: a whole number is not negative and has
/// up to `most` digits.
pub open spec fn is_small(value: Seq<u8>, most: int) -> bool {
    let e = run_end(value, ByteClass::Plain, 0);
    value.len() == 0 || (value[0] != 45 && e <= most) || value.take(e).contains(46)
}

/// With how many digits the width and the height of an inline image are read.
pub const MAX_SIZE_DIGITS: usize = 8;

/// With how many digits the number of bits of a component is read.
pub const MAX_BITS_DIGITS: usize = 2;

/// What the dictionary of an inline image tells: that it has colours, that it is a mask, that it is
/// none, and that a size is out of range.
pub struct ImageFacts {
    pub told: bool,
    pub mask: bool,
    pub other: bool,
    pub huge: bool,
}

/// What the dictionary of an inline image tells with the entry whose name is at `i` and whose value
/// is from `v` on up to `end`.
pub open spec fn with_entry(
    facts: ImageFacts,
    bytes: Seq<u8>,
    i: int,
    v: int,
    end: int,
) -> ImageFacts {
    let masks = either_end(bytes, i, key("IM"), key("ImageMask"));
    let is_true = bytes.subrange(v, end) == key("true");
    let sizes = either_end(bytes, i, key("W"), key("Width")) || either_end(
        bytes,
        i,
        key("H"),
        key("Height"),
    );
    let bits = either_end(bytes, i, key("BPC"), key("BitsPerComponent"));
    let value = bytes.subrange(v, end);
    ImageFacts {
        told: facts.told || either_end(bytes, i, key("CS"), key("ColorSpace")),
        mask: facts.mask || (masks && is_true),
        other: facts.other || (masks && !is_true),
        huge: facts.huge || (sizes && !is_small(value, MAX_SIZE_DIGITS as int)) || (bits && !is_small(
            value,
            MAX_BITS_DIGITS as int,
        )),
    }
}

/// Whether the dictionary of an inline image, from the entry at `i` on, tells the colours and sizes
/// of the image, where it is one.
pub open spec fn tells_colors(bytes: Seq<u8>, i: int, facts: ImageFacts) -> bool
    decreases bytes.len() - i,
{
    if i < 0 || i >= bytes.len() {
        true
    } else if bytes[i] == 47 {
        let v = space_end(bytes, run_end(bytes, ByteClass::Regular, i + 1), false);
        match value_end(bytes, v) {
            Some(end) => {
                let next = space_end(bytes, end, false);
                i < v <= end <= next <= bytes.len() ==> tells_colors(
                    bytes,
                    next,
                    with_entry(facts, bytes, i, v, end),
                )
            },
            None => true,
        }
    } else {
        bytes[i] == 73 && i + 1 < bytes.len() && bytes[i + 1] == 68 ==> !facts.huge && (facts.told
            || (facts.mask && !facts.other))
    }
}

/// What is told before the first entry.
pub open spec fn no_facts() -> ImageFacts {
    ImageFacts { told: false, mask: false, other: false, huge: false }
}

/// Whether an inline image with a dictionary may start at a position: there is the operator `BI`,
/// and a name follows.
pub open spec fn starts_image(bytes: Seq<u8>, i: int) -> bool {
    let start = run_end(bytes, ByteClass::Space, i + 2);
    0 <= i && i + 1 < bytes.len() && bytes[i] == 66 && bytes[i + 1] == 73 && start < bytes.len()
        && bytes[start] == 47
}

/// The first position from `p` on at which an inline image may start: in strings, names and comments
/// none does.
pub open spec fn first_image(bytes: Seq<u8>, p: int, place: Place, open: int) -> int
    decreases bytes.len() - p,
{
    if p < 0 || p >= bytes.len() {
        p
    } else if goes_on(place, bytes[p]) {
        let (next, left) = place_behind(place, open, bytes[p]);
        first_image(bytes, p + 1, next, left)
    } else if starts_image(bytes, p) {
        p
    } else {
        match mark_at(bytes, p) {
            Mark::Leads(next) => first_image(bytes, p + 1, next, 1),
            Mark::OpensDictionary => first_image(bytes, p + 2, Place::Between, 0),
            _ => first_image(bytes, p + 1, Place::Between, 0),
        }
    }
}

/// Whether all inline images of a content stream tell their colours and sizes. Behind the first one
/// every place counts: the data of an image is not split into tokens.
pub open spec fn has_plain_images(bytes: Seq<u8>) -> bool {
    forall|i: int|
        first_image(bytes, 0, Place::Between, 0) <= i && #[trigger] starts_image(bytes, i)
            ==> tells_colors(bytes, run_end(bytes, ByteClass::Space, i + 2), no_facts())
}

/// Whether a content stream can be parsed: no operand is nested too deeply, and all inline images
/// tell their colours.
pub open spec fn is_parsable(bytes: Seq<u8>) -> bool {
    is_shallow(bytes) && has_plain_images(bytes)
}

/// The operations of a content stream, or the reason why it cannot be parsed.
pub open spec fn operations_of(bytes: Seq<u8>) -> Result<
    Seq<(Seq<char>, Seq<PdfValue>)>,
    Seq<char>,
> {
    if is_parsable(bytes) {
        content_operations(bytes)
    } else {
        Err("malformed content stream"@)
    }
}

/// Whether one of the two names is at a position.
fn check_either(bytes: &[u8], p: usize, short: &str, long: &str) -> (r: bool)
    requires
        p < bytes@.len(),
    ensures
        r == either_end(bytes@, p as int, key(short), key(long)),
{
    find_name_end(bytes, p, short.as_bytes()).is_some() || find_name_end(
        bytes,
        p,
        long.as_bytes(),
    ).is_some()
}

/// Whether the bytes from `i` up to but without `e` are the given ones.
fn is_part(bytes: &[u8], i: usize, e: usize, text: &str) -> (r: bool)
    requires
        i <= e <= bytes@.len(),
    ensures
        r == (bytes@.subrange(i as int, e as int) == key(text)),
{
    same_bytes(slice_subrange(bytes, i, e), text.as_bytes())
}

/// Where a string ends of which position `start` is part.
fn find_token_end(bytes: &[u8], start: usize, kind: Place) -> (r: Option<usize>)
    requires
        0 < start <= bytes@.len(),
    ensures
        match r {
            Some(e) => token_end(bytes@, start as int, kind, 1) == Some(e as int) && start <= e
                <= bytes@.len(),
            None => token_end(bytes@, start as int, kind, 1) is None,
        },
{
    let mut p: usize = start;
    let mut place: Place = kind;
    let mut open: usize = 1;
    while p < bytes.len() && place != Place::Between
        invariant
            start <= p <= bytes@.len(),
            open <= p,
            token_end(bytes@, p as int, place, open as int) == token_end(
                bytes@,
                start as int,
                kind,
                1,
            ),
        decreases bytes@.len() - p,
    {
        let (next, left) = find_place(place, open, bytes[p]);
        place = next;
        open = left;
        p = p + 1;
    }
    if place == Place::Between {
        Some(p)
    } else {
        None
    }
}

/// Where numbers and words end that are written one behind the other.
fn find_plain_end(bytes: &[u8], start: usize) -> (r: usize)
    requires
        start <= bytes@.len(),
    ensures
        r == plain_end(bytes@, start as int),
        start <= r <= bytes@.len(),
{
    let mut i: usize = start;
    loop
        invariant
            start <= i <= bytes@.len(),
            plain_end(bytes@, i as int) == plain_end(bytes@, start as int),
        decreases bytes@.len() - i,
    {
        let e: usize = skip_run(bytes, ByteClass::Plain, i);
        let s: usize = skip_space(bytes, e);
        if i < e && s < bytes.len() && check_class(bytes[s], ByteClass::Plain) {
            i = s;
        } else {
            return e;
        }
    }
}

/// Where the value that starts at `i` ends.
fn find_value_end(bytes: &[u8], i: usize) -> (r: Option<usize>)
    requires
        i <= bytes@.len(),
    ensures
        match r {
            Some(e) => value_end(bytes@, i as int) == Some(e as int) && i <= e <= bytes@.len(),
            None => value_end(bytes@, i as int) is None,
        },
{
    if i >= bytes.len() {
        return None;
    }
    if check_class(bytes[i], ByteClass::Plain) {
        return Some(find_plain_end(bytes, i));
    }
    if bytes[i] == 47 {
        return Some(skip_run(bytes, ByteClass::Regular, i + 1));
    }
    match find_mark(bytes, i) {
        Mark::Leads(Place::Text) => find_token_end(bytes, i + 1, Place::Text),
        Mark::Leads(Place::Hex) => find_token_end(bytes, i + 1, Place::Hex),
        Mark::OpensArray => match find_nested_end(bytes, i) {
            Some(end) => end,
            None => None,
        },
        Mark::OpensDictionary => match find_nested_end(bytes, i) {
            Some(end) => end,
            None => None,
        },
        _ => None,
    }
}

/// Whether a value that gives a size of an image is in range.
fn check_small(value: &[u8], most: usize) -> (r: bool)
    ensures
        r == is_small(value@, most as int),
{
    let e: usize = skip_run(value, ByteClass::Plain, 0);
    if value.len() == 0 || (value[0] != 45 && e <= most) {
        return true;
    }
    let mut k: usize = 0;
    while k < e
        invariant
            k <= e <= value@.len(),
            e == run_end(value@, ByteClass::Plain, 0),
            forall|j: int| 0 <= j < k ==> value@[j] != 46,
        decreases e - k,
    {
        if value[k] == 46 {
            assert(value@.take(e as int)[k as int] == 46);
            return true;
        }
        k = k + 1;
    }
    assert(!value@.take(e as int).contains(46));
    false
}

/// Whether the dictionary of an inline image at `start` tells the colours and sizes of the image.
fn check_image(bytes: &[u8], start: usize) -> (r: bool)
    requires
        start <= bytes@.len(),
    ensures
        r == tells_colors(bytes@, start as int, no_facts()),
{
    let mut i: usize = start;
    let mut facts = ImageFacts { told: false, mask: false, other: false, huge: false };
    while i < bytes.len()
        invariant
            i <= bytes@.len(),
            tells_colors(bytes@, start as int, no_facts()) == tells_colors(
                bytes@,
                i as int,
                facts,
            ),
        decreases bytes@.len() - i,
    {
        if bytes[i] != 47 {
            return !(bytes[i] == 73 && bytes.len() - i > 1 && bytes[i + 1] == 68) || (!facts.huge && (
            facts.told || (facts.mask && !facts.other)));
        }
        let v: usize = skip_space(bytes, skip_run(bytes, ByteClass::Regular, i + 1));
        let end: usize = match find_value_end(bytes, v) {
            Some(k) => k,
            None => {
                return true;
            },
        };
        let masks: bool = check_either(bytes, i, "IM", "ImageMask");
        let is_true: bool = is_part(bytes, v, end, "true");
        let sizes: bool = check_either(bytes, i, "W", "Width") || check_either(
            bytes,
            i,
            "H",
            "Height",
        );
        let bits: bool = check_either(bytes, i, "BPC", "BitsPerComponent");
        let value = slice_subrange(bytes, v, end);
        let ghost before = facts;
        facts = ImageFacts {
            told: facts.told || check_either(bytes, i, "CS", "ColorSpace"),
            mask: facts.mask || (masks && is_true),
            other: facts.other || (masks && !is_true),
            huge: facts.huge || (sizes && !check_small(value, MAX_SIZE_DIGITS)) || (bits
                && !check_small(value, MAX_BITS_DIGITS)),
        };
        assert(facts == with_entry(before, bytes@, i as int, v as int, end as int));
        i = skip_space(bytes, end);
    }
    true
}

/// Whether an inline image with a dictionary may start at a position.
fn check_image_start(bytes: &[u8], i: usize) -> (r: bool)
    requires
        i < bytes@.len(),
    ensures
        r == starts_image(bytes@, i as int),
{
    if bytes[i] != 66 || bytes.len() - i < 2 || bytes[i + 1] != 73 {
        return false;
    }
    let start: usize = skip_run(bytes, ByteClass::Space, i + 2);
    start < bytes.len() && bytes[start] == 47
}

/// The first position at which an inline image may start.
fn find_first_image(bytes: &[u8]) -> (r: usize)
    ensures
        r == first_image(bytes@, 0, Place::Between, 0),
        r <= bytes@.len(),
{
    let mut p: usize = 0;
    let mut place: Place = Place::Between;
    let mut open: usize = 0;
    while p < bytes.len()
        invariant
            p <= bytes@.len(),
            open <= p,
            first_image(bytes@, p as int, place, open as int) == first_image(
                bytes@,
                0,
                Place::Between,
                0,
            ),
        decreases bytes@.len() - p,
    {
        if check_goes_on(place, bytes[p]) {
            let (next, left) = find_place(place, open, bytes[p]);
            place = next;
            open = left;
            p = p + 1;
        } else if check_image_start(bytes, p) {
            return p;
        } else {
            match find_mark(bytes, p) {
                Mark::Leads(next) => {
                    place = next;
                    open = 1;
                    p = p + 1;
                },
                Mark::OpensDictionary => {
                    place = Place::Between;
                    open = 0;
                    p = p + 2;
                },
                _ => {
                    place = Place::Between;
                    open = 0;
                    p = p + 1;
                },
            }
        }
    }
    p
}

/// Whether all inline images of a content stream tell their colours and sizes.
fn check_images(bytes: &[u8]) -> (r: bool)
    ensures
        r == has_plain_images(bytes@),
{
    let first: usize = find_first_image(bytes);
    let mut i: usize = first;
    while i < bytes.len()
        invariant
            first <= i <= bytes@.len(),
            first == first_image(bytes@, 0, Place::Between, 0),
            forall|k: int|
                first <= k < i && #[trigger] starts_image(bytes@, k) ==> tells_colors(
                    bytes@,
                    run_end(bytes@, ByteClass::Space, k + 2),
                    no_facts(),
                ),
        decreases bytes@.len() - i,
    {
        if check_image_start(bytes, i) {
            let start: usize = skip_run(bytes, ByteClass::Space, i + 2);
            if !check_image(bytes, start) {
                assert(starts_image(bytes@, i as int));
                return false;
            }
        }
        i = i + 1;
    }
    true
}

/// The operations of a content stream. Fails where it cannot be parsed, with the reason.
pub(crate) fn parse_content(bytes: &[u8]) -> (r: Result<Vec<(String, Vec<lopdf::Object>)>, String>)
    ensures
        match r {
            Ok(list) => operations_of(bytes@) matches Ok(o) && o == listed_operations(list@),
            Err(reason) => operations_of(bytes@) matches Err(m) && m == reason@,
        },
{
    if !check_shallow(bytes) || !check_images(bytes) {
        return Err("malformed content stream".to_string());
    }
    match decode_content(bytes) {
        Ok(list) => Ok(list),
        Err(e) => Err(message_of(&e)),
    }
}

// ---------------------------------------------------------------------------------------------
// Tables of ToUnicode streams
// ---------------------------------------------------------------------------------------------

/// The end of what stands before `i`, without spaces.
pub open spec fn spaces_start(bytes: Seq<u8>, i: int) -> int
    decreases i,
{
    if i <= 0 || !(bytes[i - 1] == 32 || bytes[i - 1] == 9) {
        i
    } else {
        spaces_start(bytes, i - 1)
    }
}

/// The start of the hexadecimal digits that end at `i`.
pub open spec fn hex_start(bytes: Seq<u8>, i: int) -> int
    decreases i,
{
    if i <= 0 || !is_hex_byte(bytes[i - 1]) {
        i
    } else {
        hex_start(bytes, i - 1)
    }
}

/// The number that hexadecimal digits stand for.
pub open spec fn hex_value(digits: Seq<u8>) -> int
    decreases digits.len(),
{
    if digits.len() == 0 {
        0
    } else {
        hex_value(digits.drop_last()) * 16 + hex_byte_value(digits.last())
    }
}

/// The code that ends at `i`, such as `<00FF>`, of up to four bytes: where it starts, and its value.
pub open spec fn code_before(bytes: Seq<u8>, i: int) -> Option<(int, int)> {
    let s = hex_start(bytes, i - 1);
    if 0 < i <= bytes.len() && bytes[i - 1] == 62 && 0 < s < i - 1 && i - 1 - s <= 8 && bytes[s - 1]
        == 60 {
        Some((s - 1, hex_value(bytes.subrange(s, i - 1))))
    } else {
        None
    }
}

/// The first and the last code of the range that an array at `i` may be the table of.
pub open spec fn table_range(bytes: Seq<u8>, i: int) -> Option<(int, int)> {
    match code_before(bytes, spaces_start(bytes, i)) {
        Some(last) => match code_before(bytes, spaces_start(bytes, last.0)) {
            Some(first) => Some((first.1, last.1)),
            None => None,
        },
        None => None,
    }
}

/// The first `]` from `i` on.
pub open spec fn bracket_end(bytes: Seq<u8>, i: int) -> int
    decreases bytes.len() - i,
{
    if i >= bytes.len() || bytes[i] == 93 {
        i
    } else {
        bracket_end(bytes, i + 1)
    }
}

/// The bytes of a table without white space, letters as small ones.
pub open spec fn squeezed(bytes: Seq<u8>) -> Seq<u8>
    decreases bytes.len(),
{
    if bytes.len() == 0 {
        seq![]
    } else {
        let before = squeezed(bytes.drop_last());
        let b = bytes.last();
        if is_gap(b) {
            before
        } else if 65 <= b <= 90 {
            before.push((b + 32) as u8)
        } else {
            before.push(b)
        }
    }
}

/// How often a byte occurs.
pub open spec fn byte_count(bytes: Seq<u8>, b: u8) -> nat
    decreases bytes.len(),
{
    if bytes.len() == 0 {
        0
    } else {
        byte_count(bytes.drop_last(), b) + if bytes.last() == b {
            1nat
        } else {
            0nat
        }
    }
}

/// The table that starts at `i`, behind its bracket, squeezed.
pub open spec fn table_at(bytes: Seq<u8>, i: int) -> Seq<u8> {
    squeezed(bytes.subrange(i + 1, bracket_end(bytes, i + 1)))
}

/// Whether the table of a range starts at `i`.
pub open spec fn starts_table(bytes: Seq<u8>, i: int) -> bool {
    0 <= i < bytes.len() && bytes[i] == 91 && table_range(bytes, i) is Some && bracket_end(
        bytes,
        i + 1,
    ) < bytes.len()
}

/// Whether two ranges overlap or meet.
pub open spec fn do_touch(a: (int, int), b: (int, int)) -> bool {
    a.0 <= b.1 + 1 && b.0 <= a.1 + 1
}

/// Whether the tables at two positions would be taken as one: they are the same and their ranges
/// touch.
pub open spec fn would_merge(bytes: Seq<u8>, i: int, j: int) -> bool {
    table_at(bytes, i) == table_at(bytes, j) && do_touch(
        table_range(bytes, i)->0,
        table_range(bytes, j)->0,
    )
}

/// Whether no two tables of a ToUnicode stream would be taken as one. Ranges with the same table are
/// taken as one by `lopdf` where they touch.
pub open spec fn has_parted_tables(bytes: Seq<u8>) -> bool {
    forall|i: int, j: int|
        i < j && #[trigger] starts_table(bytes, i) && #[trigger] starts_table(bytes, j)
            && byte_count(table_at(bytes, i), 60) > 1 ==> !would_merge(bytes, i, j)
}

/// The end of what stands before `i`, without spaces.
fn skip_spaces_back(bytes: &[u8], i: usize) -> (r: usize)
    requires
        i <= bytes@.len(),
    ensures
        r == spaces_start(bytes@, i as int),
        r <= i,
{
    let mut k: usize = i;
    while k > 0 && (bytes[k - 1] == 32 || bytes[k - 1] == 9)
        invariant
            k <= i <= bytes@.len(),
            spaces_start(bytes@, k as int) == spaces_start(bytes@, i as int),
        decreases k,
    {
        k = k - 1;
    }
    k
}

/// Whether a byte is a hexadecimal digit.
fn check_hex(b: u8) -> (r: bool)
    ensures
        r == is_hex_byte(b),
{
    (48 <= b && b <= 57) || (65 <= b && b <= 70) || (97 <= b && b <= 102)
}

/// The code that ends at `i`.
fn find_code_before(bytes: &[u8], i: usize) -> (r: Option<(usize, u64)>)
    requires
        i <= bytes@.len(),
    ensures
        match r {
            Some(c) => code_before(bytes@, i as int) == Some((c.0 as int, c.1 as int)) && c.0 < i
                && c.1 <= u32::MAX,
            None => code_before(bytes@, i as int) is None,
        },
{
    if i == 0 || bytes[i - 1] != 62 {
        return None;
    }
    let mut s: usize = i - 1;
    while s > 0 && check_hex(bytes[s - 1])
        invariant
            s <= i - 1 < bytes@.len(),
            hex_start(bytes@, s as int) == hex_start(bytes@, i - 1),
            forall|k: int| s <= k < i - 1 ==> is_hex_byte(#[trigger] bytes@[k]),
        decreases s,
    {
        s = s - 1;
    }
    if s == 0 || s == i - 1 || i - 1 - s > 8 || bytes[s - 1] != 60 {
        return None;
    }
    let mut value: u64 = 0;
    let mut k: usize = s;
    let ghost mut most: int = 1;
    assert(bytes@.subrange(s as int, s as int) =~= seq![]);
    while k < i - 1
        invariant
            s <= k <= i - 1 < bytes@.len(),
            i - 1 - s <= 8,
            forall|j: int| s <= j < i - 1 ==> is_hex_byte(#[trigger] bytes@[j]),
            value == hex_value(bytes@.subrange(s as int, k as int)),
            0 <= value < most,
            most == pow16(k - s),
        decreases i - 1 - k,
    {
        let b: u8 = bytes[k];
        assert(is_hex_byte(bytes@[k as int]));
        let digit: u64 = if b <= 57 {
            (b - 48) as u64
        } else if b <= 70 {
            (b - 55) as u64
        } else {
            (b - 87) as u64
        };
        assert(bytes@.subrange(s as int, k + 1).drop_last() =~= bytes@.subrange(s as int, k as int));
        proof {
            lemma_pow16(k - s);
            most = most * 16;
        }
        value = value * 16 + digit;
        k = k + 1;
    }
    proof {
        lemma_pow16(k - s);
    }
    Some((s - 1, value))
}

/// A power of 16.
spec fn pow16(n: int) -> int
    decreases n,
{
    if n <= 0 {
        1
    } else {
        pow16(n - 1) * 16
    }
}

proof fn lemma_pow16(n: int)
    requires
        0 <= n <= 8,
    ensures
        pow16(n) <= 0x1_0000_0000,
        n < 8 ==> pow16(n) <= 0x1000_0000,
{
    reveal_with_fuel(pow16, 9);
}

/// The range that an array at `i` may be the table of.
fn find_table_range(bytes: &[u8], i: usize) -> (r: Option<(u64, u64)>)
    requires
        i <= bytes@.len(),
    ensures
        match r {
            Some(c) => table_range(bytes@, i as int) == Some((c.0 as int, c.1 as int)) && c.1
                <= u32::MAX,
            None => table_range(bytes@, i as int) is None,
        },
{
    match find_code_before(bytes, skip_spaces_back(bytes, i)) {
        Some(last) => match find_code_before(bytes, skip_spaces_back(bytes, last.0)) {
            Some(first) => Some((first.1, last.1)),
            None => None,
        },
        None => None,
    }
}

/// The first `]` from `i` on.
fn find_bracket(bytes: &[u8], i: usize) -> (r: usize)
    requires
        i <= bytes@.len(),
    ensures
        r == bracket_end(bytes@, i as int),
        i <= r <= bytes@.len(),
{
    let mut k: usize = i;
    while k < bytes.len() && bytes[k] != 93
        invariant
            i <= k <= bytes@.len(),
            bracket_end(bytes@, k as int) == bracket_end(bytes@, i as int),
        decreases bytes@.len() - k,
    {
        k = k + 1;
    }
    k
}

/// The bytes of a table without white space, letters as small ones.
fn squeeze(bytes: &[u8]) -> (r: Vec<u8>)
    ensures
        r@ == squeezed(bytes@),
{
    let mut out: Vec<u8> = Vec::new();
    let mut i: usize = 0;
    assert(bytes@.take(0) =~= seq![]);
    while i < bytes.len()
        invariant
            i <= bytes@.len(),
            out@ == squeezed(bytes@.take(i as int)),
        decreases bytes@.len() - i,
    {
        assert(bytes@.take(i + 1).drop_last() =~= bytes@.take(i as int));
        let b: u8 = bytes[i];
        if !check_class(b, ByteClass::Gap) {
            if 65 <= b && b <= 90 {
                out.push(b + 32);
            } else {
                out.push(b);
            }
        }
        i = i + 1;
    }
    assert(bytes@.take(i as int) =~= bytes@);
    out
}

/// How often a byte occurs.
fn count_byte(bytes: &Vec<u8>, b: u8) -> (r: usize)
    ensures
        r == byte_count(bytes@, b),
{
    let mut count: usize = 0;
    let mut i: usize = 0;
    assert(bytes@.take(0) =~= seq![]);
    while i < bytes.len()
        invariant
            i <= bytes@.len(),
            count <= i,
            count == byte_count(bytes@.take(i as int), b),
        decreases bytes@.len() - i,
    {
        assert(bytes@.take(i + 1).drop_last() =~= bytes@.take(i as int));
        if bytes[i] == b {
            count = count + 1;
        }
        i = i + 1;
    }
    assert(bytes@.take(i as int) =~= bytes@);
    count
}

/// Whether no two tables of a ToUnicode stream would be taken as one.
fn check_tables(bytes: &[u8]) -> (r: bool)
    ensures
        r == has_parted_tables(bytes@),
{
    let n: usize = bytes.len();
    let mut seen: Vec<Vec<u8>> = Vec::new();
    let mut ranges: Vec<(u64, u64)> = Vec::new();
    let ghost mut places: Seq<int> = seq![];
    let mut i: usize = 0;
    while i < n
        invariant
            i <= n == bytes@.len(),
            seen@.len() == places.len(),
            ranges@.len() == places.len(),
            forall|k: int|
                0 <= k < places.len() ==> table_range(bytes@, #[trigger] places[k]) == Some(
                    (ranges@[k].0 as int, ranges@[k].1 as int),
                ),
            forall|k: int|
                0 <= k < places.len() ==> 0 <= #[trigger] places[k] < i && starts_table(
                    bytes@,
                    places[k],
                ) && byte_count(table_at(bytes@, places[k]), 60) > 1 && seen@[k]@ == table_at(
                    bytes@,
                    places[k],
                ),
            forall|j: int|
                j < i && #[trigger] starts_table(bytes@, j) && byte_count(table_at(bytes@, j), 60) > 1
                    ==> places.contains(j),
            forall|a: int, b: int|
                a < b < i && #[trigger] starts_table(bytes@, a) && #[trigger] starts_table(bytes@, b)
                    && byte_count(table_at(bytes@, a), 60) > 1 ==> !would_merge(bytes@, a, b),
        decreases n - i,
    {
        if bytes[i] == 91 {
            let e: usize = find_bracket(bytes, i + 1);
            match find_table_range(bytes, i) {
                Some(range) => {
                    if e < n {
                        assert(starts_table(bytes@, i as int));
                        let table = squeeze(slice_subrange(bytes, i + 1, e));
                        let entries: usize = count_byte(&table, 60);
                        let mut k: usize = 0;
                        while k < seen.len()
                            invariant
                                i < n == bytes@.len(),
                                k <= seen@.len() == places.len(),
                                ranges@.len() == places.len(),
                                table_range(bytes@, i as int) == Some(
                                    (range.0 as int, range.1 as int),
                                ),
                                forall|q: int|
                                    0 <= q < places.len() ==> table_range(
                                        bytes@,
                                        #[trigger] places[q],
                                    ) == Some((ranges@[q].0 as int, ranges@[q].1 as int)),
                                starts_table(bytes@, i as int),
                                table@ == table_at(bytes@, i as int),
                                forall|q: int|
                                    0 <= q < places.len() ==> 0 <= #[trigger] places[q] < i
                                        && starts_table(bytes@, places[q]) && byte_count(
                                        table_at(bytes@, places[q]),
                                        60,
                                    ) > 1 && seen@[q]@ == table_at(bytes@, places[q]),
                                forall|q: int|
                                    0 <= q < k ==> !would_merge(
                                        bytes@,
                                        #[trigger] places[q],
                                        i as int,
                                    ),
                            decreases seen@.len() - k,
                        {
                            let other: (u64, u64) = ranges[k];
                            let touch: bool = other.0 as u128 <= range.1 as u128 + 1
                                && range.0 as u128 <= other.1 as u128 + 1;
                            assert(places[k as int] < i);
                            if touch && same_bytes(seen[k].as_slice(), table.as_slice()) {
                                assert(would_merge(bytes@, places[k as int], i as int));
                                assert(starts_table(bytes@, places[k as int]));
                                return false;
                            }
                            k = k + 1;
                        }
                        assert forall|a: int|
                            a < i && #[trigger] starts_table(bytes@, a) && byte_count(
                                table_at(bytes@, a),
                                60,
                            ) > 1 implies !would_merge(bytes@, a, i as int) by {
                            assert(places.contains(a));
                            let q = choose|q: int| 0 <= q < places.len() && places[q] == a;
                            assert(!would_merge(bytes@, places[q], i as int));
                        }
                        if entries > 1 {
                            let ghost before = places;
                            seen.push(table);
                            ranges.push(range);
                            proof {
                                places = places.push(i as int);
                                assert forall|j: int|
                                    j < i + 1 && #[trigger] starts_table(bytes@, j) && byte_count(
                                        table_at(bytes@, j),
                                        60,
                                    ) > 1 implies places.contains(j) by {
                                    if j < i {
                                        assert(before.contains(j));
                                        let q = choose|q: int|
                                            0 <= q < before.len() && before[q] == j;
                                        assert(places[q] == j);
                                    } else {
                                        assert(places[before.len() as int] == j);
                                    }
                                }
                            }
                        }
                    }
                },
                None => {},
            }
        }
        i = i + 1;
    }
    true
}

// ---------------------------------------------------------------------------------------------
// Targets of ToUnicode streams
// ---------------------------------------------------------------------------------------------

/// Where the hexadecimal digits and gaps end that start at a position.
pub open spec fn digits_end(bytes: Seq<u8>, i: int) -> int
    decreases bytes.len() - i,
{
    if i < 0 || i >= bytes.len() || !(is_gap(bytes[i]) || is_hex_byte(bytes[i])) {
        i
    } else {
        digits_end(bytes, i + 1)
    }
}

/// How many hexadecimal digits there are from `s` on up to `e`, and the number that the last four of
/// them stand for.
pub open spec fn last_unit(bytes: Seq<u8>, s: int, e: int) -> (int, int)
    decreases e - s,
{
    if e <= s {
        (0, 0)
    } else {
        let (count, value) = last_unit(bytes, s, e - 1);
        if is_hex_byte(bytes[e - 1]) {
            (count + 1, (value * 16 + hex_byte_value(bytes[e - 1])) % 0x10000)
        } else {
            (count, value)
        }
    }
}

/// The last unit of the text of several units that is written at a position, if there is one.
pub open spec fn long_target(bytes: Seq<u8>, i: int) -> Option<int> {
    let e = digits_end(bytes, i + 1);
    if 0 <= i < bytes.len() && bytes[i] == 60 && e < bytes.len() && (bytes[e] == 62 || bytes[e]
        == 37) && last_unit(bytes, i + 1, e).0 > 4 {
        Some(last_unit(bytes, i + 1, e).1)
    } else {
        None
    }
}

/// Whether a text is interrupted by a comment at a position.
pub open spec fn is_interrupted(bytes: Seq<u8>, i: int) -> bool {
    let e = digits_end(bytes, i + 1);
    0 <= i < bytes.len() && bytes[i] == 60 && e < bytes.len() && bytes[e] == 37 && last_unit(
        bytes,
        i + 1,
        e,
    ).0 > 0
}

/// How many codes the text of several units at a position may stand for.
pub open spec fn span_at(bytes: Seq<u8>, i: int) -> int {
    if long_target(bytes, i) is Some {
        match table_range(bytes, i) {
            Some((first, last)) => if first <= last {
                last - first + 1
            } else {
                1
            },
            None => 1,
        }
    } else {
        0
    }
}

/// How many codes the texts of several units before position `n` may stand for.
pub open spec fn span_before(bytes: Seq<u8>, n: int) -> int
    decreases n,
{
    if n <= 0 {
        0
    } else {
        span_before(bytes, n - 1) + span_at(bytes, n - 1)
    }
}

/// Whether the last unit of each text of several units can be counted up over all codes: `lopdf`
/// adds the place of a code in its range to it, and takes ranges with the same text as one.
pub open spec fn has_low_targets(bytes: Seq<u8>) -> bool {
    forall|i: int|
        0 <= i < bytes.len() ==> #[trigger] is_low_at(
            bytes,
            i,
            span_before(bytes, bytes.len() as int),
        )
}

/// Whether the last unit of the text at a position, if it has several, can be counted up over the
/// given number of codes, and the text is not interrupted by a comment.
pub open spec fn is_low_at(bytes: Seq<u8>, i: int, span: int) -> bool {
    !is_interrupted(bytes, i) && match long_target(bytes, i) {
        Some(unit) => unit + span <= 0x10000,
        None => true,
    }
}

/// The last unit of the text of several units at a position; the flag says whether it is interrupted
/// by a comment.
fn find_long_target(bytes: &[u8], i: usize) -> (r: (Option<u64>, bool))
    requires
        i < bytes@.len(),
    ensures
        match r.0 {
            Some(unit) => long_target(bytes@, i as int) == Some(unit as int),
            None => long_target(bytes@, i as int) is None,
        },
        r.1 == is_interrupted(bytes@, i as int),
{
    if bytes[i] != 60 {
        return (None, false);
    }
    let mut e: usize = i + 1;
    let mut count: usize = 0;
    let mut value: u64 = 0;
    while e < bytes.len() && (check_class(bytes[e], ByteClass::Gap) || check_hex(bytes[e]))
        invariant
            i < e <= bytes@.len(),
            digits_end(bytes@, e as int) == digits_end(bytes@, i + 1),
            last_unit(bytes@, i + 1, e as int) == (count as int, value as int),
            count <= e,
            value < 0x10000,
        decreases bytes@.len() - e,
    {
        let b: u8 = bytes[e];
        if check_hex(b) {
            let digit: u64 = if b <= 57 {
                b as u64 - 48
            } else if b <= 70 {
                b as u64 - 55
            } else {
                b as u64 - 87
            };
            value = (value * 16 + digit) % 0x10000;
            count = count + 1;
        }
        e = e + 1;
    }
    if e >= bytes.len() {
        return (None, false);
    }
    let interrupted: bool = bytes[e] == 37;
    let unit: Option<u64> = if (bytes[e] == 62 || interrupted) && count > 4 {
        Some(value)
    } else {
        None
    };
    (unit, interrupted && count > 0)
}

/// Whether the last unit of each text of several units can be counted up over all codes.
fn check_targets(bytes: &[u8]) -> (r: bool)
    ensures
        r == has_low_targets(bytes@),
{
    let n: usize = bytes.len();
    let mut total: u128 = 0;
    let mut i: usize = 0;
    while i < n
        invariant
            i <= n == bytes@.len(),
            total == span_before(bytes@, i as int),
            total <= i as u128 * 0x1_0000_0000_0000_0000,
        decreases n - i,
    {
        let span: u128 = match find_long_target(bytes, i).0 {
            Some(_) => match find_table_range(bytes, i) {
                Some((first, last)) => if first <= last {
                    (last - first) as u128 + 1
                } else {
                    1
                },
                None => 1,
            },
            None => 0,
        };
        total = total + span;
        i = i + 1;
    }
    let mut k: usize = 0;
    while k < n
        invariant
            k <= n == bytes@.len(),
            total == span_before(bytes@, n as int),
            total <= n as u128 * 0x1_0000_0000_0000_0000,
            forall|j: int| 0 <= j < k ==> #[trigger] is_low_at(bytes@, j, total as int),
        decreases n - k,
    {
        let found = find_long_target(bytes, k);
        let interrupted: bool = found.1;
        let high: bool = match found.0 {
            Some(u) => total > 0x10000 || u as u128 + total > 0x10000,
            None => false,
        };
        if interrupted || high {
            assert(!is_low_at(bytes@, k as int, total as int));
            return false;
        }
        assert(is_low_at(bytes@, k as int, total as int));
        k = k + 1;
    }
    true
}

/// How many codes the range has that may be written before a position, where they need more than two
/// bytes.
pub open spec fn wide_span(bytes: Seq<u8>, i: int) -> int {
    if 0 <= i < bytes.len() && (bytes[i] == 60 || bytes[i] == 91) {
        match table_range(bytes, i) {
            Some((first, last)) => if first <= last && last > 0xFFFF {
                last - first + 1
            } else {
                0
            },
            None => 0,
        }
    } else {
        0
    }
}

/// How many codes of more than two bytes the ranges before position `n` have.
pub open spec fn wide_codes(bytes: Seq<u8>, n: int) -> int
    decreases n,
{
    if n <= 0 {
        0
    } else {
        wide_codes(bytes, n - 1) + wide_span(bytes, n - 1)
    }
}

/// How many codes of more than two bytes the ranges of a ToUnicode stream may have: `lopdf` makes a
/// list of all codes.
pub const MAX_WIDE_CODES: u32 = 0x10_0000;

/// Whether the codes of a ToUnicode stream can be listed.
fn check_wide_codes(bytes: &[u8]) -> (r: bool)
    ensures
        r == (wide_codes(bytes@, bytes@.len() as int) <= MAX_WIDE_CODES),
{
    let n: usize = bytes.len();
    let mut total: u128 = 0;
    let mut i: usize = 0;
    while i < n
        invariant
            i <= n == bytes@.len(),
            total == wide_codes(bytes@, i as int),
            total <= i as u128 * 0x1_0000_0000_0000_0000,
        decreases n - i,
    {
        let span: u128 = if bytes[i] == 60 || bytes[i] == 91 {
            match find_table_range(bytes, i) {
                Some((first, last)) => if first <= last && last > 0xFFFF {
                    (last - first) as u128 + 1
                } else {
                    0
                },
                None => 0,
            }
        } else {
            0
        };
        total = total + span;
        i = i + 1;
    }
    total <= MAX_WIDE_CODES as u128
}

/// Whether a ToUnicode stream can be read and its tables used, for the codes that they have an entry
/// for.
pub open spec fn is_usable_stream(bytes: Seq<u8>) -> bool {
    &&& is_shallow(bytes)
    &&& wide_codes(bytes, bytes.len() as int) <= MAX_WIDE_CODES
    &&& has_parted_tables(bytes)
    &&& has_low_targets(bytes)
}

/// Whether a ToUnicode stream can be read and its tables used.
fn check_stream(bytes: &[u8]) -> (r: bool)
    ensures
        r == is_usable_stream(bytes@),
{
    check_shallow(bytes) && check_wide_codes(bytes) && check_tables(bytes) && check_targets(
        bytes,
    )
}

// ---------------------------------------------------------------------------------------------
// Codes without an entry
// ---------------------------------------------------------------------------------------------

/// Whether a code is in the range of the table at a position, if there is one, but has no entry.
pub open spec fn is_lost_at(bytes: Seq<u8>, i: int, code: int) -> bool {
    let range = table_range(bytes, i)->0;
    starts_table(bytes, i) && range.0 + byte_count(table_at(bytes, i), 60) <= code <= range.1
}

/// The number that `n` bytes from `p` on stand for.
pub open spec fn code_at(text: Seq<u8>, p: int, n: int) -> int
    decreases n,
{
    if n <= 0 {
        0
    } else {
        code_at(text, p, n - 1) * 256 + text[p + n - 1]
    }
}

/// The codes without an entry in the tables of a ToUnicode stream.
pub open spec fn lost_codes(bytes: Seq<u8>) -> Set<int> {
    Set::new(|code: int| exists|i: int| 0 <= i < bytes.len() && #[trigger] is_lost_at(bytes, i, code))
}

/// Whether no code of up to four bytes in a text is among the given ones.
pub open spec fn is_kept(lost: Set<int>, text: Seq<u8>) -> bool {
    forall|p: int, n: int|
        0 <= p && 1 <= n <= 4 && p + n <= text.len() ==> !lost.contains(
            #[trigger] code_at(text, p, n),
        )
}

/// Whether no code in the texts of the values from the one with number `k` on is among the given ones.
pub open spec fn are_kept_from(lost: Set<int>, items: Seq<PdfValue>, k: int, depth: nat) -> bool
    decreases depth, 1int, items.len() - k,
{
    k >= items.len() || k < 0 || (is_kept_in(lost, items[k], depth) && are_kept_from(
        lost,
        items,
        k + 1,
        depth,
    ))
}

/// Whether no code in the texts of a value is among the given ones. Arrays may be nested `depth`
/// times.
pub open spec fn is_kept_in(lost: Set<int>, value: PdfValue, depth: nat) -> bool
    decreases depth, 0int, 0int,
{
    match value {
        PdfValue::Text(text) => is_kept(lost, text),
        PdfValue::Array(items) => depth > 0 && are_kept_from(lost, items, 0, (depth - 1) as nat),
        _ => true,
    }
}

/// Whether no code in the texts of operations is among the given ones.
pub open spec fn are_kept(lost: Set<int>, operations: Seq<(Seq<char>, Seq<PdfValue>)>) -> bool {
    lost == Set::<int>::empty() || forall|o: int|
        0 <= o < operations.len() ==> is_kept_in(
            lost,
            PdfValue::Array((#[trigger] operations[o]).1),
            MAX_DEPTH as nat,
        )
}

/// Whether ranges hold exactly the given codes.
pub open spec fn are_ranges(ranges: Seq<(u64, u64)>, codes: Set<int>) -> bool {
    forall|code: int| #[trigger]
        codes.contains(code) <==> exists|k: int|
            0 <= k < ranges.len() && (#[trigger] ranges[k]).0 <= code <= ranges[k].1
}

/// Whether no code of up to four bytes in a text is between `low` and `high`.
fn avoids_codes(text: &[u8], low: u64, high: u64) -> (r: bool)
    ensures
        r == forall|p: int, n: int|
            0 <= p && 1 <= n <= 4 && p + n <= text@.len() ==> !(low <= #[trigger] code_at(
                text@,
                p,
                n,
            ) <= high),
{
    let mut p: usize = 0;
    while p < text.len()
        invariant
            p <= text@.len(),
            forall|q: int, n: int|
                0 <= q < p && 1 <= n <= 4 && q + n <= text@.len() ==> !(low <= #[trigger] code_at(
                    text@,
                    q,
                    n,
                ) <= high),
        decreases text@.len() - p,
    {
        let mut code: u64 = 0;
        let mut n: usize = 0;
        while n < 4 && n < text.len() - p
            invariant
                p < text@.len(),
                n <= 4,
                n <= text@.len() - p,
                code == code_at(text@, p as int, n as int),
                n == 0 ==> code == 0,
                n == 1 ==> code < 0x100,
                n == 2 ==> code < 0x1_0000,
                n == 3 ==> code < 0x100_0000,
                forall|m: int|
                    1 <= m <= n ==> !(low <= #[trigger] code_at(text@, p as int, m) <= high),
            decreases 4 - n,
        {
            code = code * 256 + text[p + n] as u64;
            n = n + 1;
            if low <= code && code <= high {
                assert(low <= code_at(text@, p as int, n as int) <= high);
                return false;
            }
        }
        p = p + 1;
    }
    true
}

/// Adds the ranges of codes without an entry in the tables of a ToUnicode stream.
fn collect_lost(bytes: &[u8], out: &mut Vec<(u64, u64)>, Ghost(codes): Ghost<Set<int>>)
    requires
        are_ranges(old(out)@, codes),
        forall|k: int| 0 <= k < old(out)@.len() ==> (#[trigger] old(out)@[k]).0 <= old(out)@[k].1,
    ensures
        are_ranges(final(out)@, codes.union(lost_codes(bytes@))),
        forall|k: int|
            0 <= k < final(out)@.len() ==> (#[trigger] final(out)@[k]).0 <= final(out)@[k].1,
{
    let mut i: usize = 0;
    let ghost mut found: Set<int> = codes;
    while i < bytes.len()
        invariant
            i <= bytes@.len(),
            are_ranges(out@, found),
            forall|k: int| 0 <= k < out@.len() ==> (#[trigger] out@[k]).0 <= out@[k].1,
            forall|code: int| #[trigger]
                found.contains(code) <==> codes.contains(code) || exists|k: int|
                    0 <= k < i && #[trigger] is_lost_at(bytes@, k, code),
        decreases bytes@.len() - i,
    {
        let ghost before = out@;
        let ghost old_found = found;
        let ghost here = Set::new(|code: int| is_lost_at(bytes@, i as int, code));
        let mut added: Option<(u64, u64)> = None;
        if bytes[i] == 91 {
            let e: usize = find_bracket(bytes, i + 1);
            match find_table_range(bytes, i) {
                Some(range) => {
                    if e < bytes.len() {
                        assert(starts_table(bytes@, i as int));
                        let table = squeeze(slice_subrange(bytes, i + 1, e));
                        let entries: u64 = count_byte(&table, 60) as u64;
                        if range.0 <= u64::MAX - entries && range.0 + entries <= range.1 {
                            added = Some((range.0 + entries, range.1));
                        }
                    }
                },
                None => {},
            }
        }
        match added {
            Some(range) => {
                assert forall|code: int| is_lost_at(bytes@, i as int, code) <==> range.0 <= code
                    <= range.1 by {}
                out.push(range);
            },
            None => {
                assert forall|code: int| !is_lost_at(bytes@, i as int, code) by {}
            },
        }
        proof {
            found = found.union(here);
            assert forall|code: int| #[trigger] found.contains(code) <==> exists|k: int|
                0 <= k < out@.len() && (#[trigger] out@[k]).0 <= code <= out@[k].1 by {
                if old_found.contains(code) {
                    let k = choose|k: int|
                        0 <= k < before.len() && (#[trigger] before[k]).0 <= code <= before[k].1;
                    assert(out@[k] == before[k]);
                }
                if here.contains(code) {
                    assert(out@[before.len() as int].0 <= code <= out@[before.len() as int].1);
                }
                if exists|k: int|
                    0 <= k < out@.len() && (#[trigger] out@[k]).0 <= code <= out@[k].1 {
                    let k = choose|k: int|
                        0 <= k < out@.len() && (#[trigger] out@[k]).0 <= code <= out@[k].1;
                    if k < before.len() {
                        assert(before[k].0 <= code <= before[k].1);
                        assert(old_found.contains(code));
                    } else {
                        assert(is_lost_at(bytes@, i as int, code));
                    }
                }
            }
            assert forall|code: int| #[trigger]
                found.contains(code) <==> codes.contains(code) || exists|k: int|
                    0 <= k < i + 1 && #[trigger] is_lost_at(bytes@, k, code) by {
                if here.contains(code) {
                    assert(is_lost_at(bytes@, i as int, code));
                }
                if exists|k: int| 0 <= k < i + 1 && #[trigger] is_lost_at(bytes@, k, code) {
                    let k = choose|k: int| 0 <= k < i + 1 && #[trigger] is_lost_at(bytes@, k, code);
                    if k < i {
                        assert(old_found.contains(code));
                    }
                }
            }
        }
        i = i + 1;
    }
    assert(found =~= codes.union(lost_codes(bytes@)));
}

/// Whether no code in a text is in the given ranges.
pub(crate) fn check_kept(ranges: &Vec<(u64, u64)>, text: &[u8], Ghost(lost): Ghost<Set<int>>) -> (r:
    bool)
    requires
        are_ranges(ranges@, lost),
    ensures
        r == is_kept(lost, text@),
{
    let mut k: usize = 0;
    while k < ranges.len()
        invariant
            k <= ranges@.len(),
            are_ranges(ranges@, lost),
            forall|j: int, p: int, n: int|
                0 <= j < k && 0 <= p && 1 <= n <= 4 && p + n <= text@.len() ==> !((
                #[trigger] ranges@[j]).0 <= #[trigger] code_at(text@, p, n) <= ranges@[j].1),
        decreases ranges@.len() - k,
    {
        if !avoids_codes(text, ranges[k].0, ranges[k].1) {
            proof {
                let (p, n) = choose|p: int, n: int|
                    0 <= p && 1 <= n <= 4 && p + n <= text@.len() && ranges@[k as int].0
                        <= #[trigger] code_at(text@, p, n) <= ranges@[k as int].1;
                assert(lost.contains(code_at(text@, p, n)));
            }
            return false;
        }
        k = k + 1;
    }
    true
}

/// Whether no code in the texts of values is in the given ranges.
fn check_kept_in(
    ranges: &Vec<(u64, u64)>,
    items: &Vec<lopdf::Object>,
    depth: usize,
    Ghost(lost): Ghost<Set<int>>,
) -> (r: bool)
    requires
        are_ranges(ranges@, lost),
    ensures
        r == is_kept_in(lost, PdfValue::Array(object_values(items@)), depth as nat),
    decreases depth,
{
    let ghost values = object_values(items@);
    if depth == 0 {
        return false;
    }
    let mut k: usize = 0;
    while k < items.len()
        invariant
            k <= items@.len(),
            depth > 0,
            are_ranges(ranges@, lost),
            values == object_values(items@),
            is_kept_in(lost, PdfValue::Array(values), depth as nat) == are_kept_from(
                lost,
                values,
                k as int,
                (depth - 1) as nat,
            ),
        decreases items@.len() - k,
    {
        assert(values[k as int] == object_value(items@[k as int]));
        let shape = shape_of(&items[k]);
        let kept: bool = match shape {
            Shape::Text(text) => check_kept(ranges, text.as_slice(), Ghost(lost)),
            Shape::Array(inner) => check_kept_in(ranges, inner, depth - 1, Ghost(lost)),
            _ => true,
        };
        assert(values[k as int] == shape.value());
        assert(kept == is_kept_in(lost, shape.value(), (depth - 1) as nat));
        if !kept {
            return false;
        }
        k = k + 1;
    }
    true
}

/// Whether no code in the texts of operations is in the given ranges.
fn check_all_kept(
    ranges: &Vec<(u64, u64)>,
    operations: &Vec<(String, Vec<lopdf::Object>)>,
    Ghost(lost): Ghost<Set<int>>,
) -> (r: bool)
    requires
        are_ranges(ranges@, lost),
        forall|k: int| 0 <= k < ranges@.len() ==> (#[trigger] ranges@[k]).0 <= ranges@[k].1,
    ensures
        r == are_kept(lost, listed_operations(operations@)),
{
    if ranges.len() == 0 {
        assert(lost =~= Set::empty());
        return true;
    }
    proof {
        assert(ranges@[0].0 <= ranges@[0].0 <= ranges@[0].1);
        assert(lost.contains(ranges@[0].0 as int));
    }
    let ghost all = listed_operations(operations@);
    let mut o: usize = 0;
    while o < operations.len()
        invariant
            o <= operations@.len(),
            are_ranges(ranges@, lost),
            lost != Set::<int>::empty(),
            all == listed_operations(operations@),
            forall|j: int|
                0 <= j < o ==> is_kept_in(
                    lost,
                    PdfValue::Array((#[trigger] all[j]).1),
                    MAX_DEPTH as nat,
                ),
        decreases operations@.len() - o,
    {
        assert(all[o as int].1 == object_values(operations@[o as int].1@));
        if !check_kept_in(ranges, &operations[o].1, MAX_DEPTH, Ghost(lost)) {
            return false;
        }
        o = o + 1;
    }
    true
}

// ---------------------------------------------------------------------------------------------
// Fonts and pages
// ---------------------------------------------------------------------------------------------

/// The ToUnicode stream of a font.
pub open spec fn unicode_stream(objects: Objects, font: Entries) -> Option<(Entries, Seq<u8>)> {
    match entry(font, key("ToUnicode")) {
        Some(PdfValue::Reference(id)) => resolved_stream(objects, id),
        Some(PdfValue::Stream(entries, bytes)) => Some((entries, bytes)),
        _ => None,
    }
}

/// Whether the encoding of a font may come from its ToUnicode stream: it is named otherwise than
/// `Identity-H` or `Identity-V` where it does not.
pub open spec fn uses_stream(font: Entries) -> bool {
    match entry(font, key("Encoding")) {
        Some(PdfValue::Name(name)) => name == key("Identity-H") || name == key("Identity-V"),
        _ => true,
    }
}

/// Whether the ToUnicode stream of a font, if its encoding comes from there, can be used: its filters
/// can be tried, and its tables can be used, whether filters are undone or not.
pub open spec fn is_usable_font(objects: Objects, font: Entries) -> bool {
    uses_stream(font) ==> match unicode_stream(objects, font) {
        Some((entries, bytes)) => {
            &&& can_be_undone(entries, bytes)
            &&& is_usable_stream(bytes)
            &&& decompressed(entries, bytes) matches Some(data) ==> is_usable_stream(data)
        },
        None => true,
    }
}

/// The codes without an entry in the tables of a font, whether filters are undone or not.
pub open spec fn font_lost(objects: Objects, font: Entries) -> Set<int> {
    match unicode_stream(objects, font) {
        Some((entries, bytes)) => lost_codes(bytes).union(
            match undone(entries, bytes) {
                Some(data) => lost_codes(data),
                None => Set::empty(),
            },
        ),
        None => Set::empty(),
    }
}

/// Whether a text can be decoded by the encoding of a font: that can be used, and no code in the text
/// lacks an entry.
pub open spec fn is_decodable(objects: Objects, font: Entries, text: Seq<u8>) -> bool {
    is_usable_font(objects, font) && (uses_stream(font) ==> is_kept(font_lost(objects, font), text))
}

/// Whether a font can be used for the texts of a content stream: no code in them lacks an entry.
pub open spec fn is_readable_in(objects: Objects, font: Entries, content: Seq<u8>) -> bool {
    is_usable_font(objects, font) && match operations_of(content) {
        Ok(operations) => uses_stream(font) ==> are_kept(font_lost(objects, font), operations),
        Err(_) => true,
    }
}

/// Whether a font has an encoding that can be used.
pub open spec fn has_encoding(objects: Objects, font: Entries) -> bool {
    is_usable_font(objects, font) && font_encoding(objects, font) is Some
}

/// What the encoding of a font makes of a text; `None` where it cannot be decoded.
pub open spec fn font_text(objects: Objects, font: Entries, text: Seq<u8>) -> Option<Seq<char>> {
    match font_encoding(objects, font) {
        Some(texts) => if is_decodable(objects, font, text) && texts.dom().contains(text) {
            Some(texts[text])
        } else {
            None
        },
        None => None,
    }
}

/// The ToUnicode stream of a font.
fn find_unicode_stream<'a>(doc: &'a lopdf::Document, font: &'a lopdf::Dictionary) -> (r: Option<
    &'a lopdf::Stream,
>)
    ensures
        match r {
            Some(s) => unicode_stream(document_objects(*doc), dictionary_entries(*font)) == Some(
                (stream_entries(*s), stream_bytes(*s)),
            ),
            None => unicode_stream(document_objects(*doc), dictionary_entries(*font)) is None,
        },
{
    match dict_get(font, "ToUnicode") {
        Some(object) => match shape_of(object) {
            Shape::Reference(id) => get_stream(doc, id),
            Shape::Stream(s) => Some(s),
            _ => None,
        },
        None => None,
    }
}

/// Whether the encoding of a font may come from its ToUnicode stream.
pub(crate) fn check_uses_stream(font: &lopdf::Dictionary) -> (r: bool)
    ensures
        r == uses_stream(dictionary_entries(*font)),
{
    match dict_get(font, "Encoding") {
        Some(object) => match shape_of(object) {
            Shape::Name(name) => same_bytes(name.as_slice(), "Identity-H".as_bytes()) || same_bytes(
                name.as_slice(),
                "Identity-V".as_bytes(),
            ),
            _ => true,
        },
        None => true,
    }
}

/// Whether the ToUnicode stream of a font can be used.
fn can_use_font(doc: &lopdf::Document, font: &lopdf::Dictionary) -> (r: bool)
    ensures
        r == is_usable_font(document_objects(*doc), dictionary_entries(*font)),
{
    if !check_uses_stream(font) {
        return true;
    }
    let stream = match find_unicode_stream(doc, font) {
        Some(s) => s,
        None => {
            return true;
        },
    };
    if !check_undoable(stream) || !check_stream(stream_parts(stream).1.as_slice()) {
        return false;
    }
    match decompress(stream) {
        Some(data) => check_stream(data.as_slice()),
        None => true,
    }
}

/// The ranges of codes without an entry in the tables of a font.
fn find_lost(doc: &lopdf::Document, font: &lopdf::Dictionary) -> (r: Vec<(u64, u64)>)
    ensures
        are_ranges(r@, font_lost(document_objects(*doc), dictionary_entries(*font))),
        forall|k: int| 0 <= k < r@.len() ==> (#[trigger] r@[k]).0 <= r@[k].1,
{
    let mut out: Vec<(u64, u64)> = Vec::new();
    let stream = match find_unicode_stream(doc, font) {
        Some(s) => s,
        None => {
            return out;
        },
    };
    let bytes = stream_parts(stream).1;
    collect_lost(bytes.as_slice(), &mut out, Ghost(Set::empty()));
    assert(Set::<int>::empty().union(lost_codes(bytes@)) =~= lost_codes(bytes@));
    match undo_filters(stream) {
        Some(data) => {
            collect_lost(data.as_slice(), &mut out, Ghost(lost_codes(bytes@)));
        },
        None => {
            assert(lost_codes(bytes@).union(Set::empty()) =~= lost_codes(bytes@));
        },
    }
    out
}

/// Whether a font can be used for the texts of a content stream.
fn can_read_in(doc: &lopdf::Document, font: &lopdf::Dictionary, content: &Vec<u8>) -> (r: bool)
    ensures
        r == is_readable_in(document_objects(*doc), dictionary_entries(*font), content@),
{
    if !can_use_font(doc, font) {
        return false;
    }
    if !check_uses_stream(font) {
        return true;
    }
    let lost = find_lost(doc, font);
    let ghost codes = font_lost(document_objects(*doc), dictionary_entries(*font));
    if lost.len() == 0 {
        assert(codes =~= Set::empty());
        return true;
    }
    match parse_content(content.as_slice()) {
        Ok(operations) => check_all_kept(&lost, &operations, Ghost(codes)),
        Err(_) => true,
    }
}

/// The encoding of a font, where it can be used, and the ranges of codes that it has no entry for.
pub(crate) fn find_encoding<'a>(doc: &lopdf::Document, font: &'a lopdf::Dictionary) -> (r: Option<
    (lopdf::Encoding<'a>, Vec<(u64, u64)>),
>)
    ensures
        match r {
            Some((encoding, lost)) => is_encoding_of(
                encoding,
                lost@,
                document_objects(*doc),
                dictionary_entries(*font),
            ),
            None => !has_encoding(document_objects(*doc), dictionary_entries(*font)),
        },
{
    if !can_use_font(doc, font) {
        return None;
    }
    let lost: Vec<(u64, u64)> = if check_uses_stream(font) {
        find_lost(doc, font)
    } else {
        Vec::new()
    };
    match get_font_encoding(font, doc) {
        Some(encoding) => Some((encoding, lost)),
        None => None,
    }
}

/// Whether an encoding is that of a font, and ranges are those of the codes that it has no entry for.
pub open spec fn is_encoding_of(
    encoding: lopdf::Encoding,
    lost: Seq<(u64, u64)>,
    objects: Objects,
    font: Entries,
) -> bool {
    &&& is_usable_font(objects, font)
    &&& font_encoding(objects, font) == Some(encoding_texts(encoding))
    &&& if uses_stream(font) {
        are_ranges(lost, font_lost(objects, font))
    } else {
        lost.len() == 0
    }
}

/// What the encoding of a font makes of a text.
pub(crate) fn decode_font_text(
    encoding: &lopdf::Encoding,
    lost: &Vec<(u64, u64)>,
    text: &[u8],
    Ghost(objects): Ghost<Objects>,
    Ghost(font): Ghost<Entries>,
) -> (r: Option<String>)
    requires
        is_encoding_of(*encoding, lost@, objects, font),
    ensures
        match r {
            Some(t) => font_text(objects, font, text@) == Some(t@),
            None => font_text(objects, font, text@) is None,
        },
{
    let ghost codes = if uses_stream(font) {
        font_lost(objects, font)
    } else {
        Set::empty()
    };
    assert(are_ranges(lost@, codes));
    if !check_kept(lost, text, Ghost(codes)) {
        return None;
    }
    assert(is_decodable(objects, font, text@));
    decode_text(encoding, text)
}

/// The content of a stream with its filters undone, or as it is where they cannot be.
pub open spec fn stream_content(entries: Entries, bytes: Seq<u8>) -> Seq<u8> {
    match undone(entries, bytes) {
        Some(data) => data,
        None => bytes,
    }
}

/// The contents of the first `n` of a page's content streams, one behind the other. What is no
/// stream is passed over.
pub open spec fn joined_contents(objects: Objects, ids: Seq<(u32, u16)>, n: int) -> Seq<u8>
    decreases n,
{
    if n <= 0 {
        seq![]
    } else {
        joined_contents(objects, ids, n - 1) + match resolved_stream(objects, ids[n - 1]) {
            Some((entries, bytes)) => stream_content(entries, bytes),
            None => seq![],
        }
    }
}

/// The whole content of a page.
pub open spec fn page_content(objects: Objects, page: (u32, u16)) -> Seq<u8> {
    let ids = page_content_ids(objects, page);
    joined_contents(objects, ids, ids.len() as int)
}

/// The content of a stream with its filters undone, or as it is where they cannot be.
pub(crate) fn get_stream_content(stream: &lopdf::Stream) -> (r: Vec<u8>)
    ensures
        r@ == stream_content(stream_entries(*stream), stream_bytes(*stream)),
{
    match undo_filters(stream) {
        Some(data) => data,
        None => {
            let content = stream_parts(stream).1.clone();
            assert(content@ =~= stream_bytes(*stream));
            content
        },
    }
}

/// The whole content of a page.
pub(crate) fn get_page_content(doc: &lopdf::Document, page: (u32, u16)) -> (r: Vec<u8>)
    ensures
        r@ == page_content(document_objects(*doc), page),
{
    let ghost objects = document_objects(*doc);
    let ids = get_page_contents(doc, page);
    let mut out: Vec<u8> = Vec::new();
    let mut i: usize = 0;
    assert(out@ =~= seq![]);
    while i < ids.len()
        invariant
            i <= ids@.len(),
            objects == document_objects(*doc),
            out@ == joined_contents(objects, ids@, i as int),
        decreases ids@.len() - i,
    {
        let ghost before = out@;
        match get_stream(doc, ids[i]) {
            Some(stream) => {
                let content = get_stream_content(stream);
                out.extend_from_slice(content.as_slice());
                assert(out@ =~= before + content@);
            },
            None => {
                assert(before + seq![] =~= before);
            },
        }
        i = i + 1;
    }
    out
}

/// Whether the filters of the first `n` of a page's content streams can be tried.
pub open spec fn are_contents_readable(objects: Objects, ids: Seq<(u32, u16)>) -> bool {
    forall|i: int|
        0 <= i < ids.len() ==> (resolved_stream(objects, #[trigger] ids[i]) matches Some(s)
            ==> can_be_undone(s.0, s.1))
}

/// Whether all fonts of a list can be used for the texts of a content stream.
pub open spec fn are_fonts_readable(
    objects: Objects,
    fonts: Seq<(Seq<u8>, Entries)>,
    content: Seq<u8>,
) -> bool {
    forall|i: int|
        0 <= i < fonts.len() ==> is_readable_in(objects, (#[trigger] fonts[i]).1, content)
}

/// Whether the text of a page can be extracted without `lopdf` giving up: its fonts can be used,
/// the filters of its content can be tried, and its inline images tell their colours.
pub open spec fn is_readable_page(objects: Objects, page: (u32, u16)) -> bool {
    &&& is_near_root(objects, page)
    &&& known_fonts(objects, page) matches Some(fonts) ==> are_fonts_readable(
        objects,
        fonts,
        page_content(objects, page),
    )
    &&& are_contents_readable(objects, page_content_ids(objects, page))
    &&& is_parsable(page_content(objects, page))
}

/// Whether the text of a page can be extracted.
pub(crate) fn can_read_page(doc: &lopdf::Document, page: (u32, u16)) -> (r: bool)
    ensures
        r == is_readable_page(document_objects(*doc), page),
{
    let ghost objects = document_objects(*doc);
    if !check_near_root(doc, page) {
        return false;
    }
    let content = get_page_content(doc, page);
    match find_page_fonts(doc, page) {
        Some(fonts) => {
            let ghost all = listed_fonts(fonts@);
            let mut i: usize = 0;
            while i < fonts.len()
                invariant
                    i <= fonts@.len(),
                    objects == document_objects(*doc),
                    all == listed_fonts(fonts@),
                    known_fonts(objects, page) == Some(all),
                    content@ == page_content(objects, page),
                    forall|k: int|
                        0 <= k < i ==> is_readable_in(objects, (#[trigger] all[k]).1, content@),
                decreases fonts@.len() - i,
            {
                assert(all[i as int].1 == dictionary_entries(*fonts@[i as int].1));
                if !can_read_in(doc, fonts[i].1, &content) {
                    return false;
                }
                i = i + 1;
            }
        },
        None => {},
    }
    let ids = get_page_contents(doc, page);
    let mut i: usize = 0;
    while i < ids.len()
        invariant
            i <= ids@.len(),
            objects == document_objects(*doc),
            ids@ == page_content_ids(objects, page),
            forall|k: int|
                0 <= k < i ==> (resolved_stream(objects, #[trigger] ids@[k]) matches Some(s)
                    ==> can_be_undone(s.0, s.1)),
        decreases ids@.len() - i,
    {
        match get_stream(doc, ids[i]) {
            Some(stream) => {
                let (dict, bytes) = stream_parts(stream);
                if !can_count_rows(dict) || !check_filters(stream) {
                    assert(!are_contents_readable(objects, ids@)) by {
                        assert(resolved_stream(objects, ids@[i as int]) is Some);
                    }
                    return false;
                }
            },
            None => {},
        }
        i = i + 1;
    }
    check_shallow(content.as_slice()) && check_images(content.as_slice())
}

} // verus!
