//! Which files can be handed to the loader.
//!
//! The loader does not test every number that it reads, and opens objects inside objects. The
//! functions of this module find the files in which that would stop it: tables and streams of offsets
//! with numbers out of range, streams of objects that are nested too deeply or cannot be undone, and
//! lengths of streams that lead back to streams. Files that are encrypted are told apart: the loader
//! takes the lengths of what it decrypts for granted.

use crate::error::{reports, FailureKind, PdfError};
use crate::lexing::{
    check_class, check_shallow, find_mark, find_name_end, find_nested_end, is_digit_byte, is_of,
    is_shallow, mark_at, name_end, nested_end, run_end, skip_run, skip_space, space_end, ByteClass,
    Mark,
};
use crate::limits::{
    can_be_undone, check_undoable, operations_of, parse_content, undo_filters, undone,
};
use crate::pdf::{
    decompress, decompressed, dict_get, dictionary_entries, document_objects, document_trailer,
    entry, key, listed_operations, load_mem, load_page_count, loaded, metadata_pages, new_stream,
    object_value, object_values, same_bytes, shape_of, Entries, Objects, PdfValue, Shape,
};
use crate::validation::{file_hint, is_pdf, validate_pdf_bytes};
use std::collections::HashSet;
use vstd::prelude::*;
use vstd::slice::slice_subrange;
use vstd::std_specs::hash::*;

verus! {

// ---------------------------------------------------------------------------------------------
// Numbers and headers of objects
// ---------------------------------------------------------------------------------------------

/// Numbers are told apart up to this one.
pub const MAX_NUMBER: u64 = 0x1000_0000_0000_0000;

/// The number that the digits from `s` on up to `e` stand for, or [`MAX_NUMBER`] where it is larger.
pub open spec fn number_value(bytes: Seq<u8>, s: int, e: int) -> int
    decreases e - s,
{
    if e <= s {
        0
    } else {
        let value = number_value(bytes, s, e - 1) * 10 + (bytes[e - 1] - 48);
        if value > MAX_NUMBER {
            MAX_NUMBER as int
        } else {
            value
        }
    }
}

/// The number of an object and its generation as one number.
pub open spec fn id_code(id: (u32, u16)) -> int {
    id.0 * 0x1_0000 + id.1
}

/// What may be read as the header of an object, such as `12 0 obj`, from a position on: the number of
/// the object as by [`id_code`], and where the object starts.
pub open spec fn header_from(bytes: Seq<u8>, q: int) -> Option<(int, int)> {
    let e = run_end(bytes, ByteClass::Digit, q);
    let s = space_end(bytes, e, false);
    let d = run_end(bytes, ByteClass::Digit, s);
    let o = space_end(bytes, d, false);
    if 0 <= q < e < s < d <= o && o + 3 <= bytes.len() && bytes.subrange(o, o + 3) == key("obj")
        && number_value(bytes, q, e) <= u32::MAX && number_value(bytes, s, d) <= u16::MAX {
        Some(
            (
                number_value(bytes, q, e) * 0x1_0000 + number_value(bytes, s, d),
                space_end(bytes, o + 3, false),
            ),
        )
    } else {
        None
    }
}

/// Whether a position is inside a number, behind its first digit.
pub open spec fn is_inside(bytes: Seq<u8>, q: int) -> bool {
    0 < q < bytes.len() && is_digit_byte(bytes[q - 1]) && is_digit_byte(bytes[q])
}

/// The header of an object that may be written at a position.
pub open spec fn header_at(bytes: Seq<u8>, q: int) -> Option<(int, int)> {
    if is_inside(bytes, q) {
        None
    } else {
        header_from(bytes, q)
    }
}

/// Where a document starts in a file: at the first `%PDF-` from `i` on, or at the start of the file
/// where there is none.
pub open spec fn document_start(bytes: Seq<u8>, i: int) -> int
    decreases bytes.len() - i,
{
    if i >= bytes.len() {
        0
    } else if is_word_at(bytes, i, key("%PDF-")) {
        i
    } else {
        document_start(bytes, i + 1)
    }
}

/// Whether an offset leads into the number of an object, so that another number would be read.
pub open spec fn is_stray(bytes: Seq<u8>, offset: int) -> bool {
    let q = document_start(bytes, 0) + offset;
    is_inside(bytes, q) && header_from(bytes, q) is Some
}

/// Whether the object whose header is at a position is a dictionary.
pub open spec fn heads_dictionary(bytes: Seq<u8>, q: int) -> bool {
    match header_at(bytes, q) {
        Some((code, v)) => v < bytes.len() && mark_at(bytes, v) == Mark::OpensDictionary,
        None => false,
    }
}

/// The digits of the whole number that may be written at a position, behind its sign.
pub open spec fn integer_digits(bytes: Seq<u8>, v: int) -> (int, int) {
    let s = if v < bytes.len() && bytes[v] == 43 {
        v + 1
    } else {
        v
    };
    (s, run_end(bytes, ByteClass::Digit, s))
}

/// The objects with a header before position `n` that are dictionaries.
pub open spec fn dictionaries_before(bytes: Seq<u8>, n: int) -> Seq<u64>
    decreases n,
{
    if n <= 0 {
        seq![]
    } else {
        let before = dictionaries_before(bytes, n - 1);
        match header_at(bytes, n - 1) {
            Some((code, v)) => if heads_dictionary(bytes, n - 1) {
                before.push(code as u64)
            } else {
                before
            },
            None => before,
        }
    }
}

/// The objects with a header before position `n` that are whole numbers, with these.
pub open spec fn integers_before(bytes: Seq<u8>, n: int) -> Seq<(u64, u64)>
    decreases n,
{
    if n <= 0 {
        seq![]
    } else {
        let before = integers_before(bytes, n - 1);
        match header_at(bytes, n - 1) {
            Some((code, v)) => {
                let (s, e) = integer_digits(bytes, v);
                if s < e {
                    before.push((code as u64, number_value(bytes, s, e) as u64))
                } else {
                    before
                }
            },
            None => before,
        }
    }
}

/// The number that digits stand for.
fn read_number(bytes: &[u8], s: usize, e: usize) -> (r: u64)
    requires
        s <= e <= bytes@.len(),
        e == run_end(bytes@, ByteClass::Digit, s as int),
    ensures
        r == number_value(bytes@, s as int, e as int),
        r <= MAX_NUMBER,
{
    let mut value: u64 = 0;
    let mut k: usize = s;
    while k < e
        invariant
            s <= k <= e <= bytes@.len(),
            e == run_end(bytes@, ByteClass::Digit, k as int),
            value == number_value(bytes@, s as int, k as int),
            value <= MAX_NUMBER,
        decreases e - k,
    {
        assert(is_digit_byte(bytes@[k as int]));
        let next: u64 = value * 10 + (bytes[k] as u64 - 48);
        value = if next > MAX_NUMBER {
            MAX_NUMBER
        } else {
            next
        };
        k = k + 1;
    }
    value
}

/// Whether a position is inside a number.
fn check_inside(bytes: &[u8], q: usize) -> (r: bool)
    ensures
        r == is_inside(bytes@, q as int),
{
    0 < q && q < bytes.len() && check_class(bytes[q - 1], ByteClass::Digit) && check_class(
        bytes[q],
        ByteClass::Digit,
    )
}

/// What may be read as the header of an object from a position on.
fn read_header(bytes: &[u8], q: usize) -> (r: Option<(u64, usize)>)
    requires
        q < bytes@.len(),
    ensures
        match r {
            Some((code, v)) => header_from(bytes@, q as int) == Some((code as int, v as int)) && q < v
                <= bytes@.len() && code <= 0xFFFF_FFFF_FFFF,
            None => header_from(bytes@, q as int) is None,
        },
{
    let e: usize = skip_run(bytes, ByteClass::Digit, q);
    if e == q {
        return None;
    }
    let s: usize = skip_space(bytes, e);
    let d: usize = skip_run(bytes, ByteClass::Digit, s);
    let o: usize = skip_space(bytes, d);
    if e >= s || s >= d || bytes.len() - o < 3 || !same_bytes(
        slice_subrange(bytes, o, o + 3),
        "obj".as_bytes(),
    ) {
        return None;
    }
    let number: u64 = read_number(bytes, q, e);
    let generation: u64 = read_number(bytes, s, d);
    if number > u32::MAX as u64 || generation > u16::MAX as u64 {
        return None;
    }
    Some((number * 0x1_0000 + generation, skip_space(bytes, o + 3)))
}

/// The header of an object that may be written at a position.
fn find_header(bytes: &[u8], q: usize) -> (r: Option<(u64, usize)>)
    requires
        q < bytes@.len(),
    ensures
        match r {
            Some((code, v)) => header_at(bytes@, q as int) == Some((code as int, v as int)) && q < v
                <= bytes@.len() && code <= 0xFFFF_FFFF_FFFF,
            None => header_at(bytes@, q as int) is None,
        },
{
    if check_inside(bytes, q) {
        None
    } else {
        read_header(bytes, q)
    }
}

/// Where the document starts in a file.
fn find_document_start(bytes: &[u8]) -> (r: usize)
    ensures
        r == document_start(bytes@, 0),
        r <= bytes@.len(),
{
    let mut i: usize = 0;
    while i < bytes.len()
        invariant
            i <= bytes@.len(),
            document_start(bytes@, i as int) == document_start(bytes@, 0),
        decreases bytes@.len() - i,
    {
        if check_word(bytes, i, "%PDF-") {
            return i;
        }
        i = i + 1;
    }
    0
}

/// Whether an offset leads into the number of an object.
fn check_stray(bytes: &[u8], start: usize, offset: u64) -> (r: bool)
    requires
        start == document_start(bytes@, 0),
        start <= bytes@.len(),
    ensures
        r == is_stray(bytes@, offset as int),
{
    if offset >= (bytes.len() - start) as u64 {
        return false;
    }
    let q: usize = start + offset as usize;
    check_inside(bytes, q) && read_header(bytes, q).is_some()
}

/// The objects of a file that are dictionaries, and those that are whole numbers, with these.
fn find_objects(bytes: &[u8]) -> (r: (HashSet<u64>, Vec<(u64, u64)>))
    ensures
        r.0@ == dictionaries_before(bytes@, bytes@.len() as int).to_set(),
        r.1@ == integers_before(bytes@, bytes@.len() as int),
{
    broadcast use group_hash_axioms;

    let mut dictionaries: HashSet<u64> = HashSet::new();
    let mut integers: Vec<(u64, u64)> = Vec::new();
    let mut q: usize = 0;
    assert(dictionaries@ =~= dictionaries_before(bytes@, 0).to_set());
    while q < bytes.len()
        invariant
            q <= bytes@.len(),
            dictionaries@ == dictionaries_before(bytes@, q as int).to_set(),
            integers@ == integers_before(bytes@, q as int),
        decreases bytes@.len() - q,
    {
        let ghost before = dictionaries_before(bytes@, q as int);
        match find_header(bytes, q) {
            Some((code, v)) => {
                let is_dictionary: bool = v < bytes.len() && match find_mark(bytes, v) {
                    Mark::OpensDictionary => true,
                    _ => false,
                };
                if is_dictionary {
                    dictionaries.insert(code);
                    proof {
                        lemma_push_to_set(before, code);
                    }
                }
                let s: usize = if v < bytes.len() && bytes[v] == 43 {
                    v + 1
                } else {
                    v
                };
                let e: usize = skip_run(bytes, ByteClass::Digit, s);
                if s < e {
                    integers.push((code, read_number(bytes, s, e)));
                }
            },
            None => {},
        }
        q = q + 1;
    }
    (dictionaries, integers)
}

/// What is added to a list is added to its elements.
proof fn lemma_push_to_set<T>(list: Seq<T>, x: T)
    ensures
        list.push(x).to_set() == list.to_set().insert(x),
{
    let more = list.push(x);
    assert forall|y: T| more.to_set().contains(y) <==> list.to_set().insert(x).contains(y) by {
        if list.contains(y) {
            assert(more[list.index_of(y)] == y);
        }
        if y == x {
            assert(more[list.len() as int] == y);
        }
        if more.contains(y) && y != x {
            assert(list[more.index_of(y)] == y);
        }
    }
    assert(more.to_set() =~= list.to_set().insert(x));
}

// ---------------------------------------------------------------------------------------------
// Dictionaries and streams in a text
// ---------------------------------------------------------------------------------------------

/// The entries of the dictionary that operations consist of, if they do.
pub open spec fn single_dictionary(operations: Seq<(Seq<char>, Seq<PdfValue>)>) -> Option<Entries> {
    if operations.len() == 1 && operations[0].1.len() == 1 {
        match operations[0].1[0] {
            PdfValue::Dictionary(entries) => Some(entries),
            _ => None,
        }
    } else {
        None
    }
}

/// The dictionary that may be written at a position: its entries, and where it ends. It is read as
/// the operand of an operation.
pub open spec fn text_dictionary(bytes: Seq<u8>, i: int) -> Option<(Entries, int)> {
    if 0 <= i < bytes.len() && mark_at(bytes, i) == Mark::OpensDictionary {
        match nested_end(bytes, i) {
            Some(Some(e)) => match operations_of(bytes.subrange(i, e) + seq![32u8, 120u8]) {
                Ok(operations) => match single_dictionary(operations) {
                    Some(entries) => Some((entries, e)),
                    None => None,
                },
                Err(_) => None,
            },
            _ => None,
        }
    } else {
        None
    }
}

/// Where the data of a stream starts whose dictionary ends at `e`, if it is one of a stream.
pub open spec fn data_start(bytes: Seq<u8>, e: int) -> Option<int> {
    let s = space_end(bytes, e, false);
    let b = run_end(bytes, ByteClass::Blank, s + 6);
    if s + 6 <= bytes.len() && bytes.subrange(s, s + 6) == key("stream") && b < bytes.len() {
        if bytes[b] == 13 && b + 1 < bytes.len() && bytes[b + 1] == 10 {
            Some(b + 2)
        } else if bytes[b] == 10 || bytes[b] == 13 {
            Some(b + 1)
        } else {
            None
        }
    } else {
        None
    }
}

/// The stream that may be written at a position: its entries, and where its data starts.
pub open spec fn stream_at(bytes: Seq<u8>, i: int) -> Option<(Entries, int)> {
    match text_dictionary(bytes, i) {
        Some((entries, e)) => match data_start(bytes, e) {
            Some(s) => Some((entries, s)),
            None => None,
        },
        None => None,
    }
}

/// The dictionary that operations consist of.
fn dictionary_in<'a>(list: &'a Vec<(String, Vec<lopdf::Object>)>) -> (r: Option<
    &'a lopdf::Dictionary,
>)
    ensures
        match r {
            Some(d) => single_dictionary(listed_operations(list@)) == Some(dictionary_entries(*d)),
            None => single_dictionary(listed_operations(list@)) is None,
        },
{
    if list.len() != 1 || list[0].1.len() != 1 {
        return None;
    }
    assert(listed_operations(list@)[0].1 == object_values(list@[0].1@));
    match shape_of(&list[0].1[0]) {
        Shape::Dictionary(d) => Some(d),
        _ => None,
    }
}

/// Reads the dictionary that may be written at a position, as the operand of an operation.
fn parse_dictionary(bytes: &[u8], i: usize) -> (r: Option<(Vec<(String, Vec<lopdf::Object>)>, usize)>)
    requires
        i < bytes@.len(),
    ensures
        match r {
            Some((list, e)) => i < e <= bytes@.len() && (match single_dictionary(
                listed_operations(list@),
            ) {
                Some(entries) => text_dictionary(bytes@, i as int) == Some((entries, e as int)),
                None => false,
            }),
            None => text_dictionary(bytes@, i as int) is None,
        },
{
    match find_mark(bytes, i) {
        Mark::OpensDictionary => {},
        _ => {
            return None;
        },
    }
    let e: usize = match find_nested_end(bytes, i) {
        Some(Some(e)) => e,
        _ => {
            return None;
        },
    };
    let mut text: Vec<u8> = slice_to_vec(slice_subrange(bytes, i, e));
    text.push(32);
    text.push(120);
    assert(text@ =~= bytes@.subrange(i as int, e as int) + seq![32u8, 120u8]);
    match parse_content(text.as_slice()) {
        Ok(list) => {
            if dictionary_in(&list).is_some() {
                Some((list, e))
            } else {
                None
            }
        },
        Err(_) => None,
    }
}

/// The bytes of a slice.
fn slice_to_vec(bytes: &[u8]) -> (r: Vec<u8>)
    ensures
        r@ == bytes@,
{
    let mut out: Vec<u8> = Vec::with_capacity(bytes.len());
    let mut i: usize = 0;
    while i < bytes.len()
        invariant
            i <= bytes@.len(),
            out@ == bytes@.take(i as int),
        decreases bytes@.len() - i,
    {
        out.push(bytes[i]);
        i = i + 1;
        assert(out@ =~= bytes@.take(i as int));
    }
    assert(bytes@.take(i as int) =~= bytes@);
    out
}

/// Where the data of a stream starts whose dictionary ends at `e`.
fn find_data_start(bytes: &[u8], e: usize) -> (r: Option<usize>)
    requires
        e <= bytes@.len(),
    ensures
        match r {
            Some(s) => data_start(bytes@, e as int) == Some(s as int) && s <= bytes@.len(),
            None => data_start(bytes@, e as int) is None,
        },
{
    let s: usize = skip_space(bytes, e);
    if bytes.len() - s < 6 || !same_bytes(slice_subrange(bytes, s, s + 6), "stream".as_bytes()) {
        return None;
    }
    let b: usize = skip_run(bytes, ByteClass::Blank, s + 6);
    if b >= bytes.len() {
        return None;
    }
    if bytes[b] == 13 && bytes.len() - b > 1 && bytes[b + 1] == 10 {
        Some(b + 2)
    } else if bytes[b] == 10 || bytes[b] == 13 {
        Some(b + 1)
    } else {
        None
    }
}


// ---------------------------------------------------------------------------------------------
// Contents of streams
// ---------------------------------------------------------------------------------------------

/// Whether a stream with the given entries may have the given length: the one that it tells, or a
/// whole number with the object number that it refers to.
pub open spec fn is_length(bytes: Seq<u8>, entries: Entries, length: int) -> bool {
    match entry(entries, key("Length")) {
        Some(PdfValue::Integer(i)) => length == i,
        Some(PdfValue::Reference(id)) => integers_before(bytes, bytes.len() as int).contains(
            (id_code(id) as u64, length as u64),
        ),
        _ => false,
    }
}

/// Whether a stream whose data starts at `s` may have a content of the given length.
pub open spec fn has_content(bytes: Seq<u8>, entries: Entries, s: int, length: int) -> bool {
    0 <= length && s + length <= bytes.len() && is_length(bytes, entries, length)
}

/// Whether objects in a stream can be read: its filters can be tried, and nothing in it is nested too
/// deeply, whether filters are undone or not.
pub open spec fn is_open_content(entries: Entries, content: Seq<u8>) -> bool {
    &&& can_be_undone(entries, content)
    &&& is_shallow(content)
    &&& decompressed(entries, content) matches Some(data) ==> is_shallow(data)
}

/// Whether objects in a stream can be read, whatever its length is.
pub open spec fn is_open_stream(bytes: Seq<u8>, entries: Entries, s: int) -> bool {
    &&& is_open_content(entries, seq![])
    &&& forall|length: int| #[trigger]
        has_content(bytes, entries, s, length) ==> is_open_content(
            entries,
            bytes.subrange(s, s + length),
        )
}

/// The lengths that a stream whose data starts at `s` may have.
fn find_lengths(
    bytes: &[u8],
    dict: &lopdf::Dictionary,
    s: usize,
    integers: &Vec<(u64, u64)>,
) -> (r: Vec<usize>)
    requires
        s <= bytes@.len(),
        integers@ == integers_before(bytes@, bytes@.len() as int),
    ensures
        forall|k: int|
            0 <= k < r@.len() ==> has_content(
                bytes@,
                dictionary_entries(*dict),
                s as int,
                #[trigger] r@[k] as int,
            ),
        forall|length: int| #[trigger]
            has_content(bytes@, dictionary_entries(*dict), s as int, length) ==> r@.contains(
                length as usize,
            ),
{
    let ghost entries = dictionary_entries(*dict);
    let mut out: Vec<usize> = Vec::new();
    let most: usize = bytes.len() - s;
    let object = match dict_get(dict, "Length") {
        Some(o) => o,
        None => {
            return out;
        },
    };
    match shape_of(object) {
        Shape::Integer(i) => {
            if i >= 0 && i as u64 <= most as u64 {
                out.push(i as usize);
                assert(out@[0] == i);
            }
        },
        Shape::Reference(id) => {
            let code: u64 = id.0 as u64 * 0x1_0000 + id.1 as u64;
            let mut k: usize = 0;
            while k < integers.len()
                invariant
                    k <= integers@.len(),
                    s <= bytes@.len(),
                    most == bytes@.len() - s,
                    integers@ == integers_before(bytes@, bytes@.len() as int),
                    entries == dictionary_entries(*dict),
                    entry(entries, key("Length")) == Some(PdfValue::Reference(id)),
                    code == id_code(id),
                    forall|j: int|
                        0 <= j < out@.len() ==> has_content(
                            bytes@,
                            entries,
                            s as int,
                            #[trigger] out@[j] as int,
                        ),
                    forall|j: int|
                        0 <= j < k && (#[trigger] integers@[j]).0 == code && integers@[j].1 <= most
                            ==> out@.contains(integers@[j].1 as usize),
                decreases integers@.len() - k,
            {
                let (number, value) = integers[k];
                let ghost before = out@;
                if number == code && value <= most as u64 {
                    out.push(value as usize);
                    assert(integers@[k as int] == (id_code(id) as u64, value));
                    assert(integers@.contains((id_code(id) as u64, value)));
                    assert(has_content(bytes@, entries, s as int, value as int));
                    assert(out@[before.len() as int] == value as usize);
                }
                assert forall|j: int|
                    0 <= j < k + 1 && (#[trigger] integers@[j]).0 == code && integers@[j].1
                        <= most implies out@.contains(integers@[j].1 as usize) by {
                    if j < k {
                        let b = before.index_of(integers@[j].1 as usize);
                        assert(out@[b] == before[b]);
                    }
                }
                k = k + 1;
            }
            assert forall|length: int| #[trigger]
                has_content(bytes@, entries, s as int, length) implies out@.contains(
                length as usize,
            ) by {
                let j = integers@.index_of((id_code(id) as u64, length as u64));
                assert(integers@[j] == (id_code(id) as u64, length as u64));
            }
        },
        _ => {},
    }
    out
}

/// Whether objects in a stream with the given content can be read.
fn check_content(dict: &lopdf::Dictionary, content: &[u8]) -> (r: bool)
    ensures
        r == is_open_content(dictionary_entries(*dict), content@),
{
    let stream = new_stream(dict, content);
    if !check_undoable(&stream) || !check_shallow(content) {
        return false;
    }
    match decompress(&stream) {
        Some(data) => check_shallow(data.as_slice()),
        None => true,
    }
}

/// Whether objects in a stream can be read, whatever its length is.
fn check_stream(
    bytes: &[u8],
    dict: &lopdf::Dictionary,
    s: usize,
    integers: &Vec<(u64, u64)>,
) -> (r: bool)
    requires
        s <= bytes@.len(),
        integers@ == integers_before(bytes@, bytes@.len() as int),
    ensures
        r == is_open_stream(bytes@, dictionary_entries(*dict), s as int),
{
    let ghost entries = dictionary_entries(*dict);
    let n: usize = bytes.len();
    let lengths = find_lengths(bytes, dict, s, integers);
    let none: Vec<u8> = Vec::new();
    assert(none@ =~= seq![]);
    if !check_content(dict, none.as_slice()) {
        return false;
    }
    let mut k: usize = 0;
    while k < lengths.len()
        invariant
            k <= lengths@.len(),
            s <= n == bytes@.len(),
            entries == dictionary_entries(*dict),
            forall|j: int|
                0 <= j < lengths@.len() ==> has_content(
                    bytes@,
                    entries,
                    s as int,
                    #[trigger] lengths@[j] as int,
                ),
            forall|j: int|
                0 <= j < k ==> is_open_content(
                    entries,
                    bytes@.subrange(s as int, s + #[trigger] lengths@[j]),
                ),
        decreases lengths@.len() - k,
    {
        let length: usize = lengths[k];
        assert(has_content(bytes@, entries, s as int, lengths@[k as int] as int));
        if !check_content(dict, slice_subrange(bytes, s, s + length)) {
            return false;
        }
        k = k + 1;
    }
    assert forall|length: int| #[trigger]
        has_content(bytes@, entries, s as int, length) implies is_open_content(
        entries,
        bytes@.subrange(s as int, s + length),
    ) by {
        let j = lengths@.index_of(length as usize);
        assert(lengths@[j] == length);
    }
    true
}

// ---------------------------------------------------------------------------------------------
// Streams of offsets
// ---------------------------------------------------------------------------------------------

/// The whole numbers of a list of values, if they all are.
pub open spec fn integers_of(items: Seq<PdfValue>) -> Option<Seq<i64>> {
    if forall|k: int| 0 <= k < items.len() ==> (#[trigger] items[k]) is Integer {
        Some(items.map_values(|v: PdfValue| v->Integer_0))
    } else {
        None
    }
}

/// The whole numbers of the array under a key.
pub open spec fn integers_under(entries: Entries, name: Seq<u8>) -> Option<Seq<i64>> {
    match entry(entries, name) {
        Some(PdfValue::Array(items)) => integers_of(items),
        _ => None,
    }
}

/// How the entries of a stream of offsets are laid out: the widths of their fields, and for each
/// section the number of its first object and how many it has.
pub struct OffsetLayout {
    pub widths: (i64, i64, i64),
    pub sections: Seq<i64>,
}

/// How the entries of a stream with the given dictionary are laid out, if it is one of offsets.
pub open spec fn offset_layout(entries: Entries) -> Option<OffsetLayout> {
    match (integers_under(entries, key("W")), entry(entries, key("Size"))) {
        (Some(w), Some(PdfValue::Integer(size))) => if w.len() >= 3 && w[0] >= 0 && w[1] >= 0 && w[2]
            >= 0 {
            Some(
                OffsetLayout {
                    widths: (w[0], w[1], w[2]),
                    sections: match integers_under(entries, key("Index")) {
                        Some(index) => index,
                        None => seq![0i64, size],
                    },
                },
            )
        } else {
            None
        },
        _ => None,
    }
}

/// How wide a field of an entry may be.
pub const MAX_WIDTH: i64 = 0xFFFF;

/// The largest number that the first object of a section may have.
pub const MAX_START: i64 = 0x4000_0000_0000_0000;

/// Whether entries that are laid out in the given way can be read one by one.
pub open spec fn is_usable_layout(layout: OffsetLayout) -> bool {
    let w = layout.widths;
    &&& w.0 <= MAX_WIDTH && w.1 <= MAX_WIDTH && w.2 <= MAX_WIDTH
    &&& w.0 + w.1 + w.2 > 0
    &&& forall|k: int|
        0 <= k < layout.sections.len() && k % 2 == 0 ==> 0 <= #[trigger] layout.sections[k]
            <= MAX_START
}

/// The number that `n` bytes from `p` on stand for, of which 32 bits are kept.
pub open spec fn field_value(data: Seq<u8>, p: int, n: int) -> int
    decreases n,
{
    if n <= 0 {
        0
    } else {
        (field_value(data, p, n - 1) * 256 + data[p + n - 1]) % 0x1_0000_0000
    }
}

/// The entry at a position: its type, its second field, and where the next entry is; `None` where the
/// data ends.
pub open spec fn offset_entry(data: Seq<u8>, p: int, w: (i64, i64, i64)) -> Option<(int, int, int)> {
    if p + w.0 > data.len() {
        None
    } else {
        let kind = if w.0 > 0 {
            field_value(data, p, w.0 as int)
        } else {
            1
        };
        if kind > 2 {
            Some((kind, 0, p + w.0))
        } else if p + w.0 + w.1 + w.2 > data.len() {
            None
        } else {
            Some((kind, field_value(data, p + w.0, w.1 as int), p + w.0 + w.1 + w.2))
        }
    }
}

/// The objects that the entries from position `p` on list with the given type, each with its second
/// field: the offset of an object of type 1, and the object that keeps it of one of type 2. The next
/// entry is the one with number `j` of section `k`.
pub open spec fn listed_from(
    data: Seq<u8>,
    p: int,
    layout: OffsetLayout,
    k: int,
    j: int,
    wanted: int,
) -> Seq<(u32, u32)>
    decreases layout.sections.len() - k, layout.sections[k + 1] - j,
{
    if k < 0 || k + 1 >= layout.sections.len() {
        seq![]
    } else if j >= layout.sections[k + 1] {
        listed_from(data, p, layout, k + 2, 0, wanted)
    } else {
        match offset_entry(data, p, layout.widths) {
            Some((kind, second, next)) => {
                let rest = listed_from(data, next, layout, k, j + 1, wanted);
                if kind == wanted {
                    seq![
                        (((layout.sections[k] + j) % 0x1_0000_0000) as u32, second as u32),
                    ] + rest
                } else {
                    rest
                }
            },
            None => seq![],
        }
    }
}

/// The objects that a stream of offsets lists with the given type, its filters undone or not.
pub open spec fn listed_by(
    entries: Entries,
    layout: OffsetLayout,
    content: Seq<u8>,
    wanted: int,
) -> Seq<(u32, u32)> {
    listed_from(content, 0, layout, 0, 0, wanted) + match decompressed(entries, content) {
        Some(data) => listed_from(data, 0, layout, 0, 0, wanted),
        None => seq![],
    }
}

/// The content of a stream whose data starts at `s` and that tells its length itself.
pub open spec fn told_content(bytes: Seq<u8>, entries: Entries, s: int) -> Seq<u8> {
    match entry(entries, key("Length")) {
        Some(PdfValue::Integer(i)) => if 0 <= i && s + i <= bytes.len() {
            bytes.subrange(s, s + i)
        } else {
            seq![]
        },
        _ => seq![],
    }
}

/// The objects that the stream that may be written at a position lists with the given type.
pub open spec fn listed_at(bytes: Seq<u8>, i: int, wanted: int) -> Seq<(u32, u32)> {
    match stream_at(bytes, i) {
        Some((entries, s)) => match offset_layout(entries) {
            Some(layout) => listed_by(entries, layout, told_content(bytes, entries, s), wanted),
            None => seq![],
        },
        None => seq![],
    }
}

/// The objects that the streams before position `n` list with the given type.
pub open spec fn listed_before(bytes: Seq<u8>, n: int, wanted: int) -> Seq<(u32, u32)>
    decreases n,
{
    if n <= 0 {
        seq![]
    } else {
        listed_before(bytes, n - 1, wanted) + listed_at(bytes, n - 1, wanted)
    }
}

/// The objects of a file that are kept in other objects, each with the one that keeps it.
pub open spec fn all_kept(bytes: Seq<u8>) -> Seq<(u32, u32)> {
    listed_before(bytes, bytes.len() as int, 2)
}

/// The objects of a file that streams of offsets list, each with its offset.
pub open spec fn all_offsets(bytes: Seq<u8>) -> Seq<(u32, u32)> {
    listed_before(bytes, bytes.len() as int, 1)
}

/// Whether the stream of offsets that may be written at a position can be read.
pub open spec fn has_usable_offsets(bytes: Seq<u8>, i: int) -> bool {
    match stream_at(bytes, i) {
        Some((entries, s)) => match offset_layout(entries) {
            Some(layout) => {
                &&& is_usable_layout(layout)
                &&& can_be_undone(entries, told_content(bytes, entries, s))
            },
            None => true,
        },
        None => true,
    }
}

/// The whole numbers of the array under a key.
fn get_integers(dict: &lopdf::Dictionary, name: &str) -> (r: Option<Vec<i64>>)
    ensures
        match r {
            Some(list) => integers_under(dictionary_entries(*dict), key(name)) == Some(list@),
            None => integers_under(dictionary_entries(*dict), key(name)) is None,
        },
{
    let items = match dict_get(dict, name) {
        Some(object) => match shape_of(object) {
            Shape::Array(items) => items,
            _ => {
                return None;
            },
        },
        None => {
            return None;
        },
    };
    let ghost values = object_values(items@);
    let mut out: Vec<i64> = Vec::new();
    let mut k: usize = 0;
    while k < items.len()
        invariant
            k <= items@.len(),
            values == object_values(items@),
            entry(dictionary_entries(*dict), key(name)) == Some(PdfValue::Array(values)),
            out@.len() == k,
            forall|j: int|
                0 <= j < k ==> (#[trigger] values[j]) is Integer && out@[j] == values[j]->Integer_0,
        decreases items@.len() - k,
    {
        assert(values[k as int] == object_value(items@[k as int]));
        match shape_of(&items[k]) {
            Shape::Integer(i) => {
                out.push(i);
            },
            _ => {
                assert(!(values[k as int] is Integer));
                return None;
            },
        }
        k = k + 1;
    }
    assert(out@ =~= values.map_values(|v: PdfValue| v->Integer_0));
    Some(out)
}

/// The widths and sections of a stream of offsets, as [`OffsetLayout`].
fn find_layout(dict: &lopdf::Dictionary) -> (r: Option<((i64, i64, i64), Vec<i64>)>)
    ensures
        match r {
            Some((widths, sections)) => offset_layout(dictionary_entries(*dict)) == Some(
                (OffsetLayout { widths, sections: sections@ }),
            ) && widths.0 >= 0 && widths.1 >= 0 && widths.2 >= 0,
            None => offset_layout(dictionary_entries(*dict)) is None,
        },
{
    let w = match get_integers(dict, "W") {
        Some(w) => w,
        None => {
            return None;
        },
    };
    let size: i64 = match dict_get(dict, "Size") {
        Some(object) => match shape_of(object) {
            Shape::Integer(i) => i,
            _ => {
                return None;
            },
        },
        None => {
            return None;
        },
    };
    if w.len() < 3 || w[0] < 0 || w[1] < 0 || w[2] < 0 {
        return None;
    }
    let sections: Vec<i64> = match get_integers(dict, "Index") {
        Some(index) => index,
        None => {
            let mut all: Vec<i64> = Vec::new();
            all.push(0);
            all.push(size);
            assert(all@ =~= seq![0i64, size]);
            all
        },
    };
    Some(((w[0], w[1], w[2]), sections))
}

/// Whether entries that are laid out in the given way can be read one by one.
fn check_layout(widths: (i64, i64, i64), sections: &Vec<i64>) -> (r: bool)
    requires
        widths.0 >= 0,
        widths.1 >= 0,
        widths.2 >= 0,
    ensures
        r == is_usable_layout((OffsetLayout { widths, sections: sections@ })),
{
    if widths.0 > MAX_WIDTH || widths.1 > MAX_WIDTH || widths.2 > MAX_WIDTH || (widths.0 == 0
        && widths.1 == 0 && widths.2 == 0) {
        return false;
    }
    let mut k: usize = 0;
    while k < sections.len()
        invariant
            k <= sections@.len(),
            forall|j: int|
                0 <= j < k && j % 2 == 0 ==> 0 <= #[trigger] sections@[j] <= MAX_START,
        decreases sections@.len() - k,
    {
        if k % 2 == 0 && (sections[k] < 0 || sections[k] > MAX_START) {
            proof {
                let layout = OffsetLayout { widths, sections: sections@ };
                assert(k as int % 2 == 0);
                assert(!(0 <= layout.sections[k as int] <= MAX_START));
                assert(!is_usable_layout(layout));
            }
            return false;
        }
        k = k + 1;
    }
    true
}

/// The number that `n` bytes from `p` on stand for.
fn read_field(data: &[u8], p: usize, n: usize) -> (r: u64)
    requires
        p + n <= data@.len(),
    ensures
        r == field_value(data@, p as int, n as int),
        r <= u32::MAX,
{
    let all: usize = data.len();
    let mut value: u64 = 0;
    let mut k: usize = 0;
    while k < n
        invariant
            k <= n,
            p + n <= all == data@.len(),
            value == field_value(data@, p as int, k as int),
            value <= u32::MAX,
        decreases n - k,
    {
        value = (value * 256 + data[p + k] as u64) % 0x1_0000_0000;
        k = k + 1;
    }
    value
}

/// Adds the objects that the entries of a stream of offsets list with the given type.
fn collect_listed(
    data: &[u8],
    widths: (i64, i64, i64),
    sections: &Vec<i64>,
    wanted: u64,
    out: &mut Vec<(u32, u32)>,
)
    requires
        wanted == 1 || wanted == 2,
        widths.0 >= 0,
        widths.1 >= 0,
        widths.2 >= 0,
        is_usable_layout((OffsetLayout { widths, sections: sections@ })),
    ensures
        final(out)@ == old(out)@ + listed_from(
            data@,
            0,
            OffsetLayout { widths, sections: sections@ },
            0,
            0,
            wanted as int,
        ),
{
    let ghost layout = OffsetLayout { widths, sections: sections@ };
    let ghost all = out@ + listed_from(data@, 0, layout, 0, 0, wanted as int);
    let n: usize = sections.len();
    let (w0, w1, w2) = (widths.0 as usize, widths.1 as usize, widths.2 as usize);
    let mut p: usize = 0;
    let mut k: usize = 0;
    while n - k > 1
        invariant
            k <= n == sections@.len(),
            wanted == 1 || wanted == 2,
            k % 2 == 0,
            p <= data@.len(),
            all == old(out)@ + listed_from(data@, 0, layout, 0, 0, wanted as int),
            layout == (OffsetLayout { widths, sections: sections@ }),
            is_usable_layout(layout),
            w0 == widths.0,
            w1 == widths.1,
            w2 == widths.2,
            w0 <= MAX_WIDTH && w1 <= MAX_WIDTH && w2 <= MAX_WIDTH,
            out@ + listed_from(data@, p as int, layout, k as int, 0, wanted as int) == all,
        decreases n - k,
    {
        let start: i64 = sections[k];
        let count: i64 = sections[k + 1];
        let mut j: i64 = 0;
        while j < count
            invariant
                k + 1 < n == sections@.len(),
                wanted == 1 || wanted == 2,
                k % 2 == 0,
                all == old(out)@ + listed_from(data@, 0, layout, 0, 0, wanted as int),
                p <= data@.len(),
                0 <= j <= p,
                j <= count || count < 0,
                start == sections@[k as int],
                count == sections@[k + 1],
                0 <= start <= MAX_START,
                layout == (OffsetLayout { widths, sections: sections@ }),
                is_usable_layout(layout),
                w0 == widths.0,
                w1 == widths.1,
                w2 == widths.2,
                w0 <= MAX_WIDTH && w1 <= MAX_WIDTH && w2 <= MAX_WIDTH,
                w0 + w1 + w2 > 0,
                out@ + listed_from(data@, p as int, layout, k as int, j as int, wanted as int) == all,
            decreases count - j,
        {
            let left: usize = data.len() - p;
            if left < w0 {
                assert(listed_from(data@, p as int, layout, k as int, j as int, wanted as int) =~= seq![]);
                assert(out@ =~= all);
                return;
            }
            let kind: u64 = if w0 > 0 {
                read_field(data, p, w0)
            } else {
                1
            };
            if kind > 2 {
                p = p + w0;
            } else {
                if left - w0 < w1 || left - w0 - w1 < w2 {
                    assert(listed_from(data@, p as int, layout, k as int, j as int, wanted as int) =~= seq![]);
                    assert(out@ =~= all);
                    return;
                }
                let second: u64 = read_field(data, p + w0, w1);
                if kind == wanted {
                    let ghost before = out@;
                    let ghost rest = listed_from(
                        data@,
                        p + w0 + w1 + w2,
                        layout,
                        k as int,
                        j + 1,
                        wanted as int,
                    );
                    let number: u32 = ((start as u128 + j as u128) % 0x1_0000_0000) as u32;
                    out.push((number, second as u32));
                    assert(out@ + rest =~= before + (seq![(number, second as u32)] + rest));
                }
                p = p + w0 + w1 + w2;
            }
            j = j + 1;
        }
        k = k + 2;
    }
    assert(listed_from(data@, p as int, layout, k as int, 0, wanted as int) =~= seq![]);
    assert(out@ =~= all);
}

/// Reads the stream that may be written at a position: its dictionary, as the operand of an
/// operation, and where its data starts.
fn parse_stream(bytes: &[u8], i: usize) -> (r: Option<(Vec<(String, Vec<lopdf::Object>)>, usize)>)
    requires
        i < bytes@.len(),
    ensures
        match r {
            Some((list, s)) => s <= bytes@.len() && (match single_dictionary(
                listed_operations(list@),
            ) {
                Some(entries) => stream_at(bytes@, i as int) == Some((entries, s as int)),
                None => false,
            }),
            None => stream_at(bytes@, i as int) is None,
        },
{
    match find_mark(bytes, i) {
        Mark::OpensDictionary => {},
        _ => {
            return None;
        },
    }
    let e: usize = match find_nested_end(bytes, i) {
        Some(Some(e)) => e,
        _ => {
            return None;
        },
    };
    let s: usize = match find_data_start(bytes, e) {
        Some(s) => s,
        None => {
            return None;
        },
    };
    match parse_dictionary(bytes, i) {
        Some((list, _)) => Some((list, s)),
        None => None,
    }
}

/// Adds the objects that a stream of offsets keeps in other objects, and those that it gives an offset.
/// Says whether the stream can be read, where it is one.
fn inspect_offsets(
    bytes: &[u8],
    dict: &lopdf::Dictionary,
    s: usize,
    kept: &mut Vec<(u32, u32)>,
    offsets: &mut Vec<(u32, u32)>,
) -> (r: bool)
    requires
        s <= bytes@.len(),
    ensures
        ({
            let entries = dictionary_entries(*dict);
            let content = told_content(bytes@, entries, s as int);
            match offset_layout(entries) {
                Some(layout) => {
                    &&& r == (is_usable_layout(layout) && can_be_undone(entries, content))
                    &&& r ==> final(kept)@ == old(kept)@ + listed_by(entries, layout, content, 2)
                    &&& r ==> final(offsets)@ == old(offsets)@ + listed_by(
                        entries,
                        layout,
                        content,
                        1,
                    )
                },
                None => r && final(kept)@ == old(kept)@ && final(offsets)@ == old(offsets)@,
            }
        }),
{
    let n: usize = bytes.len();
    let (widths, sections) = match find_layout(dict) {
        Some(layout) => layout,
        None => {
            return true;
        },
    };
    if !check_layout(widths, &sections) {
        return false;
    }
    let length: usize = match dict_get(dict, "Length") {
        Some(object) => match shape_of(object) {
            Shape::Integer(i) => if i >= 0 && i as u64 <= (n - s) as u64 {
                i as usize
            } else {
                0
            },
            _ => 0,
        },
        None => 0,
    };
    let content = slice_subrange(bytes, s, s + length);
    assert(content@ =~= told_content(bytes@, dictionary_entries(*dict), s as int));
    let stream = new_stream(dict, content);
    if !check_undoable(&stream) {
        return false;
    }
    let ghost kept_first = kept@;
    let ghost offsets_first = offsets@;
    collect_listed(content, widths, &sections, 2, kept);
    collect_listed(content, widths, &sections, 1, offsets);
    match decompress(&stream) {
        Some(data) => {
            collect_listed(data.as_slice(), widths, &sections, 2, kept);
            collect_listed(data.as_slice(), widths, &sections, 1, offsets);
        },
        None => {},
    }
    proof {
        let entries = dictionary_entries(*dict);
        let layout = OffsetLayout { widths, sections: sections@ };
        assert(kept@ =~= kept_first + listed_by(entries, layout, content@, 2));
        assert(offsets@ =~= offsets_first + listed_by(entries, layout, content@, 1));
    }
    true
}

// ---------------------------------------------------------------------------------------------
// Streams of objects, and lengths
// ---------------------------------------------------------------------------------------------

/// Whether a stream holds objects.
pub open spec fn holds_objects(entries: Entries) -> bool {
    entry(entries, key("First")) is Some || entry(entries, key("Type")) == Some(
        PdfValue::Name(key("ObjStm")),
    )
}

/// Whether the length of a stream, where it is another object, is none that is written as a
/// dictionary.
pub open spec fn has_plain_length(entries: Entries, dictionaries: Set<u64>) -> bool {
    match entry(entries, key("Length")) {
        Some(PdfValue::Reference(id)) => !dictionaries.contains(id_code(id) as u64),
        _ => true,
    }
}

/// Whether the stream that may be written at a position can be loaded.
pub open spec fn is_loadable_stream(bytes: Seq<u8>, i: int) -> bool {
    match stream_at(bytes, i) {
        Some((entries, s)) => {
            &&& has_usable_offsets(bytes, i)
            &&& has_plain_length(
                entries,
                dictionaries_before(bytes, bytes.len() as int).to_set(),
            )
            &&& holds_objects(entries) ==> is_open_stream(bytes, entries, s)
        },
        None => true,
    }
}

/// The objects that are kept in other objects, and those that keep them.
pub open spec fn kept_objects(kept: Seq<(u32, u32)>) -> Set<u32> {
    kept.map_values(|p: (u32, u32)| p.0).to_set()
}

/// The objects that keep other objects.
pub open spec fn keepers(kept: Seq<(u32, u32)>) -> Set<u32> {
    kept.map_values(|p: (u32, u32)| p.1).to_set()
}

/// Whether no object that keeps others is kept itself.
pub open spec fn is_flat(kept: Seq<(u32, u32)>) -> bool {
    forall|k: int| 0 <= k < kept.len() ==> !kept_objects(kept).contains((#[trigger] kept[k]).1)
}

/// Whether the length of a stream, where it is another object, is none that is kept in an object.
pub open spec fn has_open_length(entries: Entries, kept: Seq<(u32, u32)>) -> bool {
    match entry(entries, key("Length")) {
        Some(PdfValue::Reference(id)) => !kept_objects(kept).contains(id.0),
        _ => true,
    }
}

/// Whether the object with a header at a position, if it keeps other objects, can be opened: these can
/// be read, and to know its length no other object has to be opened.
pub open spec fn is_loadable_keeper(bytes: Seq<u8>, q: int, kept: Seq<(u32, u32)>) -> bool {
    match header_at(bytes, q) {
        Some((code, v)) => keepers(kept).contains((code / 0x1_0000) as u32) ==> match stream_at(
            bytes,
            v,
        ) {
            Some((entries, s)) => is_open_stream(bytes, entries, s) && has_open_length(
                entries,
                kept,
            ),
            None => true,
        },
        None => true,
    }
}

/// Whether a stream holds objects.
fn check_holds_objects(dict: &lopdf::Dictionary) -> (r: bool)
    ensures
        r == holds_objects(dictionary_entries(*dict)),
{
    if dict_get(dict, "First").is_some() {
        return true;
    }
    match dict_get(dict, "Type") {
        Some(object) => match shape_of(object) {
            Shape::Name(name) => same_bytes(name.as_slice(), "ObjStm".as_bytes()),
            _ => false,
        },
        None => false,
    }
}

/// The object that the length of a stream is.
fn find_length_object(dict: &lopdf::Dictionary) -> (r: Option<(u32, u16)>)
    ensures
        match r {
            Some(id) => entry(dictionary_entries(*dict), key("Length")) == Some(
                PdfValue::Reference(id),
            ),
            None => !(entry(dictionary_entries(*dict), key("Length")) matches Some(
                PdfValue::Reference(_),
            )),
        },
{
    match dict_get(dict, "Length") {
        Some(object) => match shape_of(object) {
            Shape::Reference(id) => Some(id),
            _ => None,
        },
        None => None,
    }
}

/// The objects that are kept in other objects, and those that have an offset; `None` where a stream
/// cannot be loaded.
fn inspect_streams(bytes: &[u8], dictionaries: &HashSet<u64>, integers: &Vec<(u64, u64)>) -> (r:
    Option<(Vec<(u32, u32)>, Vec<(u32, u32)>)>)
    requires
        dictionaries@ == dictionaries_before(bytes@, bytes@.len() as int).to_set(),
        integers@ == integers_before(bytes@, bytes@.len() as int),
    ensures
        match r {
            Some((kept, offsets)) => kept@ == all_kept(bytes@) && offsets@ == all_offsets(bytes@) && forall|i: int|
                0 <= i < bytes@.len() ==> #[trigger] is_loadable_stream(bytes@, i),
            None => exists|i: int|
                0 <= i < bytes@.len() && !(#[trigger] is_loadable_stream(bytes@, i)),
        },
{
    broadcast use group_hash_axioms;

    let mut kept: Vec<(u32, u32)> = Vec::new();
    let mut offsets: Vec<(u32, u32)> = Vec::new();
    let mut i: usize = 0;
    assert(kept@ =~= seq![] && offsets@ =~= seq![]);
    while i < bytes.len()
        invariant
            i <= bytes@.len(),
            dictionaries@ == dictionaries_before(bytes@, bytes@.len() as int).to_set(),
            integers@ == integers_before(bytes@, bytes@.len() as int),
            kept@ == listed_before(bytes@, i as int, 2),
            offsets@ == listed_before(bytes@, i as int, 1),
            forall|k: int| 0 <= k < i ==> #[trigger] is_loadable_stream(bytes@, k),
        decreases bytes@.len() - i,
    {
        let ghost kept_first = kept@;
        let ghost offsets_first = offsets@;
        match parse_stream(bytes, i) {
            Some((list, s)) => {
                let dict = match dictionary_in(&list) {
                    Some(d) => d,
                    None => {
                        return None;
                    },
                };
                let length: bool = match find_length_object(dict) {
                    Some(id) => !dictionaries.contains(&(id.0 as u64 * 0x1_0000 + id.1 as u64)),
                    None => true,
                };
                if !length || !inspect_offsets(bytes, dict, s, &mut kept, &mut offsets) || (
                check_holds_objects(dict) && !check_stream(bytes, dict, s, integers)) {
                    assert(!is_loadable_stream(bytes@, i as int));
                    return None;
                }
            },
            None => {},
        }
        assert(kept@ =~= kept_first + listed_at(bytes@, i as int, 2));
        assert(offsets@ =~= offsets_first + listed_at(bytes@, i as int, 1));
        assert(is_loadable_stream(bytes@, i as int));
        i = i + 1;
    }
    Some((kept, offsets))
}

/// The first and the second numbers of pairs.
fn split_pairs(pairs: &Vec<(u32, u32)>) -> (r: (HashSet<u32>, HashSet<u32>))
    ensures
        r.0@ == kept_objects(pairs@),
        r.1@ == keepers(pairs@),
{
    broadcast use group_hash_axioms;

    let ghost firsts = pairs@.map_values(|p: (u32, u32)| p.0);
    let ghost seconds = pairs@.map_values(|p: (u32, u32)| p.1);
    let mut a: HashSet<u32> = HashSet::new();
    let mut b: HashSet<u32> = HashSet::new();
    let mut k: usize = 0;
    assert(a@ =~= firsts.take(0).to_set());
    assert(b@ =~= seconds.take(0).to_set());
    while k < pairs.len()
        invariant
            k <= pairs@.len(),
            firsts == pairs@.map_values(|p: (u32, u32)| p.0),
            seconds == pairs@.map_values(|p: (u32, u32)| p.1),
            a@ == firsts.take(k as int).to_set(),
            b@ == seconds.take(k as int).to_set(),
        decreases pairs@.len() - k,
    {
        let (x, y) = pairs[k];
        proof {
            lemma_push_to_set(firsts.take(k as int), x);
            lemma_push_to_set(seconds.take(k as int), y);
            assert(firsts.take(k + 1) =~= firsts.take(k as int).push(x));
            assert(seconds.take(k + 1) =~= seconds.take(k as int).push(y));
        }
        a.insert(x);
        b.insert(y);
        k = k + 1;
    }
    assert(firsts.take(k as int) =~= firsts);
    assert(seconds.take(k as int) =~= seconds);
    (a, b)
}

/// Whether the objects that keep other objects can be opened.
fn check_keepers(bytes: &[u8], kept: &Vec<(u32, u32)>, integers: &Vec<(u64, u64)>) -> (r: bool)
    requires
        integers@ == integers_before(bytes@, bytes@.len() as int),
    ensures
        r == (is_flat(kept@) && forall|q: int|
            0 <= q < bytes@.len() ==> #[trigger] is_loadable_keeper(bytes@, q, kept@)),
{
    broadcast use group_hash_axioms;

    if kept.len() == 0 {
        assert forall|q: int| 0 <= q < bytes@.len() implies #[trigger] is_loadable_keeper(
            bytes@,
            q,
            kept@,
        ) by {
            assert(kept@.map_values(|p: (u32, u32)| p.1) =~= seq![]);
        }
        return true;
    }
    let (objects, holders) = split_pairs(kept);
    let mut k: usize = 0;
    while k < kept.len()
        invariant
            k <= kept@.len(),
            objects@ == kept_objects(kept@),
            forall|j: int| 0 <= j < k ==> !objects@.contains((#[trigger] kept@[j]).1),
        decreases kept@.len() - k,
    {
        if objects.contains(&kept[k].1) {
            assert(kept_objects(kept@).contains(kept@[k as int].1));
            return false;
        }
        k = k + 1;
    }
    let mut q: usize = 0;
    while q < bytes.len()
        invariant
            q <= bytes@.len(),
            integers@ == integers_before(bytes@, bytes@.len() as int),
            objects@ == kept_objects(kept@),
            is_flat(kept@),
            holders@ == keepers(kept@),
            forall|k: int| 0 <= k < q ==> #[trigger] is_loadable_keeper(bytes@, k, kept@),
        decreases bytes@.len() - q,
    {
        match find_header(bytes, q) {
            Some((code, v)) => {
                if v < bytes.len() && holders.contains(&((code / 0x1_0000) as u32)) {
                    match parse_stream(bytes, v) {
                        Some((list, s)) => {
                            let is_open: bool = match dictionary_in(&list) {
                                Some(dict) => {
                                    let length: bool = match find_length_object(dict) {
                                        Some(id) => !objects.contains(&id.0),
                                        None => true,
                                    };
                                    length && check_stream(bytes, dict, s, integers)
                                },
                                None => false,
                            };
                            if !is_open {
                                assert(!is_loadable_keeper(bytes@, q as int, kept@));
                                return false;
                            }
                        },
                        None => {},
                    }
                }
            },
            None => {},
        }
        assert(is_loadable_keeper(bytes@, q as int, kept@));
        q = q + 1;
    }
    true
}

// ---------------------------------------------------------------------------------------------
// Tables of offsets
// ---------------------------------------------------------------------------------------------

/// Whether a word is written at a position.
pub open spec fn is_word_at(bytes: Seq<u8>, i: int, word: Seq<u8>) -> bool {
    0 <= i && i + word.len() <= bytes.len() && bytes.subrange(i, i + word.len() as int) == word
}

/// Whether a number that ends at a position in a table is the offset of an object: its generation and
/// the letter `n` follow.
pub open spec fn is_offset_end(bytes: Seq<u8>, e: int) -> bool {
    let d = run_end(bytes, ByteClass::Digit, e + 1);
    0 <= e && d + 1 < bytes.len() && bytes[e] == 32 && e + 1 < d && bytes[d] == 32 && bytes[d + 1]
        == 110
}

/// Whether the numbers of a table that may start at a position, from `k` on, are in range, and no
/// offset leads into the number of an object.
pub open spec fn has_small_numbers(bytes: Seq<u8>, k: int) -> bool
    decreases bytes.len() - k,
{
    if k < 0 || k >= bytes.len() || !is_of(bytes[k], ByteClass::Table) {
        true
    } else if is_digit_byte(bytes[k]) {
        let e = run_end(bytes, ByteClass::Digit, k);
        &&& number_value(bytes, k, e) < MAX_NUMBER
        &&& is_offset_end(bytes, e) ==> !is_stray(bytes, number_value(bytes, k, e))
        &&& k < e <= bytes.len() ==> has_small_numbers(bytes, e)
    } else {
        has_small_numbers(bytes, k + 1)
    }
}

/// Whether the table of offsets that may start at a position can be used.
pub open spec fn is_usable_table(bytes: Seq<u8>, i: int) -> bool {
    is_word_at(bytes, i, key("xref")) ==> has_small_numbers(bytes, i + key("xref").len())
}

/// Whether a word is written at a position.
fn check_word(bytes: &[u8], i: usize, word: &str) -> (r: bool)
    requires
        i <= bytes@.len(),
    ensures
        r == is_word_at(bytes@, i as int, key(word)),
{
    let w = word.as_bytes();
    bytes.len() - i >= w.len() && same_bytes(slice_subrange(bytes, i, i + w.len()), w)
}

/// Whether a number that ends at a position in a table is the offset of an object.
fn check_offset_end(bytes: &[u8], e: usize) -> (r: bool)
    requires
        e <= bytes@.len(),
    ensures
        r == is_offset_end(bytes@, e as int),
{
    if e >= bytes.len() || bytes[e] != 32 {
        return false;
    }
    let d: usize = skip_run(bytes, ByteClass::Digit, e + 1);
    e + 1 < d && bytes.len() - d > 1 && bytes[d] == 32 && bytes[d + 1] == 110
}

/// Whether the table of offsets that may start at a position can be used.
fn check_table(bytes: &[u8], i: usize, start: usize) -> (r: bool)
    requires
        i < bytes@.len(),
        start == document_start(bytes@, 0),
        start <= bytes@.len(),
    ensures
        r == is_usable_table(bytes@, i as int),
{
    if !check_word(bytes, i, "xref") {
        return true;
    }
    let word = "xref".as_bytes();
    assert(i + word@.len() <= bytes@.len());
    let n: usize = bytes.len();
    let mut k: usize = i + word.len();
    while k < bytes.len() && check_class(bytes[k], ByteClass::Table)
        invariant
            k <= bytes@.len(),
            start == document_start(bytes@, 0),
            start <= bytes@.len(),
            is_usable_table(bytes@, i as int) == has_small_numbers(bytes@, k as int),
        decreases bytes@.len() - k,
    {
        if check_class(bytes[k], ByteClass::Digit) {
            let e: usize = skip_run(bytes, ByteClass::Digit, k + 1);
            let value: u64 = read_number(bytes, k, e);
            if value >= MAX_NUMBER || (check_offset_end(bytes, e) && check_stray(bytes, start, value)) {
                return false;
            }
            k = e;
        } else {
            k = k + 1;
        }
    }
    true
}

// ---------------------------------------------------------------------------------------------
// Encryption
// ---------------------------------------------------------------------------------------------

/// Whether a name is written in a file.
pub open spec fn mentions(bytes: Seq<u8>, from: int, to: int, name: Seq<u8>) -> bool {
    exists|p: int| from <= p < to && (#[trigger] name_end(bytes, p, name)) is Some
}

/// Whether the trailer, or the stream of offsets, that may be written at a position tells that the
/// file is encrypted.
pub open spec fn tells_encryption(bytes: Seq<u8>, i: int) -> bool {
    ||| is_word_at(bytes, i, key("trailer")) && (text_dictionary(
        bytes,
        space_end(bytes, i + key("trailer").len(), false),
    ) matches Some((entries, e)) && entry(entries, key("Encrypt")) is Some)
    ||| stream_at(bytes, i) matches Some((entries, s)) && entry(entries, key("W")) is Some && entry(
        entries,
        key("Encrypt"),
    ) is Some
}

/// Whether a file is encrypted.
pub open spec fn is_encrypted(bytes: Seq<u8>) -> bool {
    mentions(bytes, 0, bytes.len() as int, key("Encrypt")) && exists|i: int|
        0 <= i < bytes.len() && #[trigger] tells_encryption(bytes, i)
}

/// Whether a name is written from `from` on up to `to`.
fn check_mention(bytes: &[u8], from: usize, to: usize, name: &str) -> (r: bool)
    requires
        from <= to <= bytes@.len(),
    ensures
        r == mentions(bytes@, from as int, to as int, key(name)),
{
    let mut p: usize = from;
    while p < to
        invariant
            from <= p <= to <= bytes@.len(),
            forall|k: int| from <= k < p ==> (#[trigger] name_end(bytes@, k, key(name))) is None,
        decreases to - p,
    {
        if find_name_end(bytes, p, name.as_bytes()).is_some() {
            assert(name_end(bytes@, p as int, key(name)) is Some);
            return true;
        }
        p = p + 1;
    }
    false
}

/// Whether the trailer or the stream of offsets at a position tells that the file is encrypted.
fn check_encryption_at(bytes: &[u8], i: usize) -> (r: bool)
    requires
        i < bytes@.len(),
    ensures
        r == tells_encryption(bytes@, i as int),
{
    if check_word(bytes, i, "trailer") {
        let word = "trailer".as_bytes();
        assert(i + word@.len() <= bytes@.len());
        let n: usize = bytes.len();
        let d: usize = skip_space(bytes, i + word.len());
        if d < bytes.len() {
            match parse_dictionary(bytes, d) {
                Some((list, _)) => match dictionary_in(&list) {
                    Some(dict) => if dict_get(dict, "Encrypt").is_some() {
                        return true;
                    },
                    None => {},
                },
                None => {},
            }
        }
    }
    match parse_stream(bytes, i) {
        Some((list, _)) => match dictionary_in(&list) {
            Some(dict) => dict_get(dict, "W").is_some() && dict_get(dict, "Encrypt").is_some(),
            None => false,
        },
        None => false,
    }
}

/// Whether a file is encrypted.
pub(crate) fn check_encrypted(bytes: &[u8]) -> (r: bool)
    ensures
        r == is_encrypted(bytes@),
{
    if !check_mention(bytes, 0, bytes.len(), "Encrypt") {
        return false;
    }
    let mut i: usize = 0;
    while i < bytes.len()
        invariant
            i <= bytes@.len(),
            mentions(bytes@, 0, bytes@.len() as int, key("Encrypt")),
            forall|k: int| 0 <= k < i ==> !(#[trigger] tells_encryption(bytes@, k)),
        decreases bytes@.len() - i,
    {
        if check_encryption_at(bytes, i) {
            assert(tells_encryption(bytes@, i as int));
            return true;
        }
        i = i + 1;
    }
    false
}

// ---------------------------------------------------------------------------------------------
// Page counts
// ---------------------------------------------------------------------------------------------

/// Whether the node of the page tree that a dictionary may be tells the number of its pages.
pub open spec fn is_counted_node(entries: Entries) -> bool {
    entry(entries, key("Type")) == Some(PdfValue::Name(key("Pages"))) ==> (entry(
        entries,
        key("Count"),
    ) matches Some(PdfValue::Integer(count)) && count >= 0)
}

/// Whether the dictionary that may be written at a position is no node of the page tree that does not
/// tell the number of its pages.
pub open spec fn is_counted_at(bytes: Seq<u8>, i: int) -> bool {
    match text_dictionary(bytes, i) {
        Some((entries, e)) => mentions(bytes, i, e, key("Pages")) ==> is_counted_node(entries),
        None => true,
    }
}

/// Whether all nodes of the page tree in a text tell the numbers of their pages.
pub open spec fn has_counted_nodes(bytes: Seq<u8>) -> bool {
    forall|i: int| 0 <= i < bytes.len() ==> #[trigger] is_counted_at(bytes, i)
}

/// Whether all nodes of the page tree in a stream tell the numbers of their pages.
pub open spec fn is_counted_content(entries: Entries, content: Seq<u8>) -> bool {
    &&& has_counted_nodes(content)
    &&& undone(entries, content) matches Some(data) ==> has_counted_nodes(data)
}

/// Whether all nodes of the page tree in a stream tell the numbers of their pages, whatever its length
/// is.
pub open spec fn is_counted_data(bytes: Seq<u8>, entries: Entries, s: int) -> bool {
    forall|length: int| #[trigger]
        has_content(bytes, entries, s, length) ==> is_counted_content(
            entries,
            bytes.subrange(s, s + length),
        )
}

/// Whether all nodes of the page tree in the stream that may be written at a position, if it holds
/// objects, tell the numbers of their pages.
pub open spec fn is_counted_stream(bytes: Seq<u8>, i: int) -> bool {
    match stream_at(bytes, i) {
        Some((entries, s)) => holds_objects(entries) ==> is_counted_data(bytes, entries, s),
        None => true,
    }
}

/// Whether all nodes of the page tree in a file tell the numbers of their pages.
pub open spec fn has_told_counts(bytes: Seq<u8>) -> bool {
    &&& has_counted_nodes(bytes)
    &&& forall|i: int| 0 <= i < bytes.len() ==> #[trigger] is_counted_stream(bytes, i)
}

/// Whether the node of the page tree that a dictionary may be tells the number of its pages.
fn check_node(dict: &lopdf::Dictionary) -> (r: bool)
    ensures
        r == is_counted_node(dictionary_entries(*dict)),
{
    let is_node: bool = match dict_get(dict, "Type") {
        Some(object) => match shape_of(object) {
            Shape::Name(name) => same_bytes(name.as_slice(), "Pages".as_bytes()),
            _ => false,
        },
        None => false,
    };
    if !is_node {
        return true;
    }
    match dict_get(dict, "Count") {
        Some(object) => match shape_of(object) {
            Shape::Integer(count) => count >= 0,
            _ => false,
        },
        None => false,
    }
}

/// Whether all nodes of the page tree in a text tell the numbers of their pages.
fn check_nodes(bytes: &[u8]) -> (r: bool)
    ensures
        r == has_counted_nodes(bytes@),
{
    let mut i: usize = 0;
    while i < bytes.len()
        invariant
            i <= bytes@.len(),
            forall|k: int| 0 <= k < i ==> #[trigger] is_counted_at(bytes@, k),
        decreases bytes@.len() - i,
    {
        let end: usize = match find_mark(bytes, i) {
            Mark::OpensDictionary => match find_nested_end(bytes, i) {
                Some(Some(e)) => e,
                _ => i,
            },
            _ => i,
        };
        if end > i && check_mention(bytes, i, end, "Pages") {
            match parse_dictionary(bytes, i) {
                Some((list, _)) => {
                    let counted: bool = match dictionary_in(&list) {
                        Some(dict) => check_node(dict),
                        None => true,
                    };
                    if !counted {
                        assert(!is_counted_at(bytes@, i as int));
                        return false;
                    }
                },
                None => {},
            }
        }
        assert(is_counted_at(bytes@, i as int));
        i = i + 1;
    }
    true
}

/// Whether all nodes of the page tree in a stream tell the numbers of their pages.
fn check_counted_content(dict: &lopdf::Dictionary, content: &[u8]) -> (r: bool)
    ensures
        r == is_counted_content(dictionary_entries(*dict), content@),
{
    if !check_nodes(content) {
        return false;
    }
    match undo_filters(&new_stream(dict, content)) {
        Some(data) => check_nodes(data.as_slice()),
        None => true,
    }
}

/// Whether all nodes of the page tree in a stream tell the numbers of their pages, whatever its length
/// is.
fn check_counted_data(
    bytes: &[u8],
    dict: &lopdf::Dictionary,
    s: usize,
    integers: &Vec<(u64, u64)>,
) -> (r: bool)
    requires
        s <= bytes@.len(),
        integers@ == integers_before(bytes@, bytes@.len() as int),
    ensures
        r == is_counted_data(bytes@, dictionary_entries(*dict), s as int),
{
    let n: usize = bytes.len();
    let ghost entries = dictionary_entries(*dict);
    let lengths = find_lengths(bytes, dict, s, integers);
    let mut k: usize = 0;
    while k < lengths.len()
        invariant
            k <= lengths@.len(),
            s <= n == bytes@.len(),
            entries == dictionary_entries(*dict),
            forall|j: int|
                0 <= j < lengths@.len() ==> has_content(
                    bytes@,
                    entries,
                    s as int,
                    #[trigger] lengths@[j] as int,
                ),
            forall|j: int|
                0 <= j < k ==> is_counted_content(
                    entries,
                    bytes@.subrange(s as int, s + #[trigger] lengths@[j]),
                ),
        decreases lengths@.len() - k,
    {
        let length: usize = lengths[k];
        assert(has_content(bytes@, entries, s as int, lengths@[k as int] as int));
        if !check_counted_content(dict, slice_subrange(bytes, s, s + length)) {
            return false;
        }
        k = k + 1;
    }
    assert forall|length: int| #[trigger]
        has_content(bytes@, entries, s as int, length) implies is_counted_content(
        entries,
        bytes@.subrange(s as int, s + length),
    ) by {
        let j = lengths@.index_of(length as usize);
        assert(lengths@[j] == length);
    }
    true
}

/// Whether all nodes of the page tree in the stream at a position tell the numbers of their pages.
fn check_counted_stream(bytes: &[u8], i: usize, integers: &Vec<(u64, u64)>) -> (r: bool)
    requires
        i < bytes@.len(),
        integers@ == integers_before(bytes@, bytes@.len() as int),
    ensures
        r == is_counted_stream(bytes@, i as int),
{
    match parse_stream(bytes, i) {
        Some((list, s)) => match dictionary_in(&list) {
            Some(dict) => !check_holds_objects(dict) || check_counted_data(bytes, dict, s, integers),
            None => true,
        },
        None => true,
    }
}

/// Whether all nodes of the page tree in a file tell the numbers of their pages.
fn check_counts(bytes: &[u8]) -> (r: bool)
    ensures
        r == has_told_counts(bytes@),
{
    if !check_nodes(bytes) {
        return false;
    }
    let (_, integers) = find_objects(bytes);
    let mut i: usize = 0;
    while i < bytes.len()
        invariant
            i <= bytes@.len(),
            has_counted_nodes(bytes@),
            integers@ == integers_before(bytes@, bytes@.len() as int),
            forall|k: int| 0 <= k < i ==> #[trigger] is_counted_stream(bytes@, k),
        decreases bytes@.len() - i,
    {
        if !check_counted_stream(bytes, i, &integers) {
            assert(!is_counted_stream(bytes@, i as int));
            return false;
        }
        i = i + 1;
    }
    true
}

// ---------------------------------------------------------------------------------------------
// Files
// ---------------------------------------------------------------------------------------------

/// Whether a file can be handed to the loader: it is not encrypted, nothing in it is nested too
/// deeply, its tables of offsets can be used, its streams can be loaded, no offset leads into the number
/// of an object, and the objects that keep others can be loaded and are not kept themselves.
pub open spec fn is_loadable(bytes: Seq<u8>) -> bool {
    &&& !is_encrypted(bytes)
    &&& is_shallow(bytes)
    &&& forall|i: int| 0 <= i < bytes.len() ==> #[trigger] is_usable_table(bytes, i)
    &&& forall|i: int| 0 <= i < bytes.len() ==> #[trigger] is_loadable_stream(bytes, i)
    &&& forall|k: int|
        0 <= k < all_offsets(bytes).len() ==> !is_stray(
            bytes,
            (#[trigger] all_offsets(bytes)[k]).1 as int,
        )
    &&& is_flat(all_kept(bytes))
    &&& forall|q: int|
        0 <= q < bytes.len() ==> #[trigger] is_loadable_keeper(
            bytes,
            q,
            all_kept(bytes),
        )
}

/// Whether a file that is not encrypted can be handed to the loader.
pub(crate) fn can_be_loaded(bytes: &[u8]) -> (r: bool)
    requires
        !is_encrypted(bytes@),
    ensures
        r == is_loadable(bytes@),
{
    if !check_shallow(bytes) {
        return false;
    }
    let start: usize = find_document_start(bytes);
    let mut i: usize = 0;
    while i < bytes.len()
        invariant
            i <= bytes@.len(),
            start == document_start(bytes@, 0),
            start <= bytes@.len(),
            forall|k: int| 0 <= k < i ==> #[trigger] is_usable_table(bytes@, k),
        decreases bytes@.len() - i,
    {
        if !check_table(bytes, i, start) {
            assert(!is_usable_table(bytes@, i as int));
            return false;
        }
        i = i + 1;
    }
    let (dictionaries, integers) = find_objects(bytes);
    let (kept, offsets) = match inspect_streams(bytes, &dictionaries, &integers) {
        Some(lists) => lists,
        None => {
            return false;
        },
    };
    let mut k: usize = 0;
    while k < offsets.len()
        invariant
            k <= offsets@.len(),
            offsets@ == all_offsets(bytes@),
            start == document_start(bytes@, 0),
            start <= bytes@.len(),
            forall|j: int|
                0 <= j < k ==> !is_stray(bytes@, (#[trigger] all_offsets(bytes@)[j]).1 as int),
        decreases offsets@.len() - k,
    {
        if check_stray(bytes, start, offsets[k].1 as u64) {
            assert(is_stray(bytes@, all_offsets(bytes@)[k as int].1 as int));
            return false;
        }
        k = k + 1;
    }
    check_keepers(bytes, &kept, &integers)
}

/// How it is reported that a file cannot be handed to the loader; `None` where it can.
pub open spec fn refusal(bytes: Seq<u8>) -> Option<(FailureKind, Seq<char>)> {
    if is_encrypted(bytes) {
        Some((FailureKind::Decryption, "the file is encrypted"@))
    } else if !is_loadable(bytes) {
        Some((FailureKind::Other, "malformed file structure"@))
    } else {
        None
    }
}

/// The documents that may be loaded from a file, or how that fails and how that is worded.
pub open spec fn opened(bytes: Seq<u8>) -> Result<
    Set<(Objects, Entries)>,
    (FailureKind, Seq<char>),
> {
    match refusal(bytes) {
        Some(f) => Err(f),
        None => loaded(bytes),
    }
}

/// Tests whether a file can be handed to the loader.
fn admit_file(buffer: &[u8]) -> (r: Result<(), PdfError>)
    ensures
        match refusal(buffer@) {
            Some(f) => r is Err && reports(r->Err_0, f.0, f.1),
            None => r is Ok,
        },
{
    if check_encrypted(buffer) {
        return Err(PdfError::Encrypted);
    }
    if !can_be_loaded(buffer) {
        return Err(PdfError::Parse("malformed file structure".to_string()));
    }
    Ok(())
}

/// Loads the document in the given bytes. Bytes that do not start like a PDF are refused with what
/// they seem to be; a document that cannot be loaded is reported.
pub fn load_document(buffer: &[u8]) -> (r: Result<lopdf::Document, PdfError>)
    ensures
        !is_pdf(buffer@) ==> (r matches Err(PdfError::NotAPdf(hint)) && hint@ == file_hint(buffer@)),
        is_pdf(buffer@) ==> match opened(buffer@) {
            Err(f) => r is Err && reports(r->Err_0, f.0, f.1),
            Ok(all) => r matches Ok(d) && all.contains((document_objects(d), document_trailer(d))),
        },
{
    match validate_pdf_bytes(buffer) {
        Ok(_) => {},
        Err(e) => {
            return Err(e);
        },
    }
    match admit_file(buffer) {
        Ok(_) => {},
        Err(e) => {
            return Err(e);
        },
    }
    match load_mem(buffer) {
        Ok(d) => Ok(d),
        Err(e) => Err(PdfError::from_lopdf(e)),
    }
}

/// The number of pages that a file tells to have, or how it fails to; `None` where a node of the page
/// tree does not tell how many pages it has.
pub open spec fn told_pages(bytes: Seq<u8>) -> Option<Result<u32, (FailureKind, Seq<char>)>> {
    match refusal(bytes) {
        Some(f) => Some(Err(f)),
        None => if has_told_counts(bytes) {
            Some(metadata_pages(bytes))
        } else {
            None
        },
    }
}

/// Asks a file for the number of its pages; `None` where a node of the page tree does not tell how
/// many pages it has.
pub(crate) fn ask_page_count(buffer: &[u8]) -> (r: Result<Option<u32>, PdfError>)
    ensures
        match told_pages(buffer@) {
            Some(Err(f)) => r is Err && reports(r->Err_0, f.0, f.1),
            Some(Ok(n)) => r == Ok::<Option<u32>, PdfError>(Some(n)),
            None => r == Ok::<Option<u32>, PdfError>(None),
        },
{
    match admit_file(buffer) {
        Ok(_) => {},
        Err(e) => {
            return Err(e);
        },
    }
    if !check_counts(buffer) {
        return Ok(None);
    }
    match load_page_count(buffer) {
        Ok(n) => Ok(Some(n)),
        Err(e) => Err(PdfError::from_lopdf(e)),
    }
}

} // verus!
