//! Telling a PDF by its first bytes, and naming what else a file seems to be.

use crate::error::PdfError;
use crate::pdf::key;
use vstd::prelude::*;
use vstd::slice::slice_subrange;

verus! {

/// Whether a byte is ASCII white space.
pub open spec fn is_ascii_space(b: u8) -> bool {
    b == 0x20 || b == 0x09 || b == 0x0A || b == 0x0C || b == 0x0D
}

/// Whether a byte is ASCII white space.
pub fn is_space_byte(b: u8) -> (r: bool)
    ensures
        r == is_ascii_space(b),
{
    b == 0x20 || b == 0x09 || b == 0x0A || b == 0x0C || b == 0x0D
}

/// The first position from `i` on that holds no ASCII white space, or the end.
pub open spec fn blank_end(bytes: Seq<u8>, i: int) -> int
    decreases bytes.len() - i,
{
    if 0 <= i < bytes.len() && is_ascii_space(bytes[i]) {
        blank_end(bytes, i + 1)
    } else {
        i
    }
}

/// Whether a row of bytes starts with another.
pub open spec fn starts(bytes: Seq<u8>, prefix: Seq<u8>) -> bool {
    bytes.len() >= prefix.len() && bytes.take(prefix.len() as int) == prefix
}

/// The bytes behind a byte order mark and the white space that follows.
pub open spec fn body_of(bytes: Seq<u8>) -> Seq<u8> {
    let rest = if starts(bytes, seq![0xEFu8, 0xBB, 0xBF]) {
        bytes.skip(3)
    } else {
        bytes
    };
    rest.skip(blank_end(rest, 0))
}

/// A byte with an ASCII capital made small.
pub open spec fn lower_byte(b: u8) -> u8 {
    if 0x41 <= b <= 0x5A {
        (b + 32) as u8
    } else {
        b
    }
}

/// Whether a row of bytes starts with another, ASCII capitals and small letters taken as the same.
pub open spec fn starts_folded(bytes: Seq<u8>, prefix: Seq<u8>) -> bool {
    bytes.len() >= prefix.len() && forall|i: int|
        0 <= i < prefix.len() ==> lower_byte(#[trigger] bytes[i]) == lower_byte(prefix[i])
}

/// Whether a row of bytes starts with another.
pub fn starts_with_bytes(bytes: &[u8], prefix: &[u8]) -> (r: bool)
    ensures
        r == starts(bytes@, prefix@),
{
    if bytes.len() < prefix.len() {
        return false;
    }
    let mut i: usize = 0;
    while i < prefix.len()
        invariant
            i <= prefix@.len() <= bytes@.len(),
            forall|k: int| 0 <= k < i ==> bytes@[k] == prefix@[k],
        decreases prefix@.len() - i,
    {
        if bytes[i] != prefix[i] {
            assert(bytes@.take(prefix@.len() as int)[i as int] != prefix@[i as int]);
            return false;
        }
        i = i + 1;
    }
    assert(bytes@.take(prefix@.len() as int) =~= prefix@);
    true
}

/// Strips a byte order mark and leading ASCII white space.
pub fn strip_bom_and_whitespace(bytes: &[u8]) -> (r: &[u8])
    ensures
        r@ == body_of(bytes@),
{
    let rest: &[u8] = if starts_with_bytes(bytes, &[0xEFu8, 0xBB, 0xBF]) {
        let tail = slice_subrange(bytes, 3, bytes.len());
        assert(tail@ =~= bytes@.skip(3));
        tail
    } else {
        bytes
    };
    assert([0xEFu8, 0xBB, 0xBF]@ =~= seq![0xEFu8, 0xBB, 0xBF]);
    let mut i: usize = 0;
    while i < rest.len() && is_space_byte(rest[i])
        invariant
            i <= rest@.len(),
            blank_end(rest@, i as int) == blank_end(rest@, 0),
        decreases rest@.len() - i,
    {
        i = i + 1;
    }
    let out = slice_subrange(rest, i, rest.len());
    assert(out@ =~= rest@.skip(i as int));
    out
}

/// A byte with an ASCII capital made small.
fn to_lower_byte(b: u8) -> (r: u8)
    ensures
        r == lower_byte(b),
{
    if 0x41 <= b && b <= 0x5A {
        b + 32
    } else {
        b
    }
}

/// Whether a row of bytes starts with another, ASCII capitals and small letters taken as the same.
pub fn starts_with_ci(haystack: &[u8], needle: &[u8]) -> (r: bool)
    ensures
        r == starts_folded(haystack@, needle@),
{
    if haystack.len() < needle.len() {
        return false;
    }
    let mut i: usize = 0;
    while i < needle.len()
        invariant
            i <= needle@.len() <= haystack@.len(),
            forall|k: int|
                0 <= k < i ==> lower_byte(#[trigger] haystack@[k]) == lower_byte(needle@[k]),
        decreases needle@.len() - i,
    {
        if to_lower_byte(haystack[i]) != to_lower_byte(needle[i]) {
            return false;
        }
        i = i + 1;
    }
    true
}

/// Whether a byte is printable ASCII or ASCII white space.
pub open spec fn is_printable(b: u8) -> bool {
    0x21 <= b <= 0x7E || is_ascii_space(b)
}

/// How many bytes are printable.
pub open spec fn printable_count(bytes: Seq<u8>) -> nat
    decreases bytes.len(),
{
    if bytes.len() == 0 {
        0
    } else {
        printable_count(bytes.drop_last()) + if is_printable(bytes.last()) {
            1nat
        } else {
            0nat
        }
    }
}

/// Whether more than three quarters of the first 512 bytes are printable.
pub open spec fn is_mostly_text(bytes: Seq<u8>) -> bool {
    let sample = if bytes.len() <= 512 {
        bytes
    } else {
        bytes.take(512)
    };
    printable_count(sample) > sample.len() * 3 / 4
}

/// Whether a body starts like an HTML page.
pub open spec fn is_html(body: Seq<u8>) -> bool {
    ||| starts_folded(body, key("<!doctype html"))
    ||| starts_folded(body, key("<html"))
    ||| starts_folded(body, key("<head"))
    ||| starts_folded(body, key("<body"))
}

/// What a file seems to be.
pub open spec fn file_hint(bytes: Seq<u8>) -> Seq<char> {
    let body = body_of(bytes);
    if bytes.len() == 0 {
        "file is empty"@
    } else if is_html(body) {
        "file appears to be HTML"@
    } else if body.len() > 0 && body[0] == 0x3C && !(body.len() > 1 && body[1] == 0x25) {
        "file appears to be XML"@
    } else if body.len() > 0 && (body[0] == 0x7B || body[0] == 0x5B) {
        "file appears to be JSON"@
    } else if starts(bytes, seq![0x89u8, 0x50, 0x4E, 0x47]) {
        "file appears to be a PNG image"@
    } else if starts(bytes, seq![0xFFu8, 0xD8, 0xFF]) {
        "file appears to be a JPEG image"@
    } else if starts(bytes, seq![0x50u8, 0x4B, 0x03, 0x04]) {
        "file appears to be a ZIP archive (possibly an Office document)"@
    } else if is_mostly_text(bytes) {
        "file appears to be plain text"@
    } else {
        "file is not a PDF"@
    }
}

/// Whether more than three quarters of the first 512 bytes are printable.
fn looks_like_text(bytes: &[u8]) -> (r: bool)
    ensures
        r == is_mostly_text(bytes@),
{
    let n: usize = if bytes.len() <= 512 {
        bytes.len()
    } else {
        512
    };
    let mut count: usize = 0;
    let mut i: usize = 0;
    while i < n
        invariant
            i <= n <= bytes@.len(),
            count <= i,
            count == printable_count(bytes@.take(i as int)),
        decreases n - i,
    {
        let b: u8 = bytes[i];
        if (0x21 <= b && b <= 0x7E) || is_space_byte(b) {
            count = count + 1;
        }
        assert(bytes@.take(i + 1).drop_last() =~= bytes@.take(i as int));
        i = i + 1;
    }
    assert(bytes@.len() <= 512 ==> bytes@.take(n as int) =~= bytes@);
    count > n * 3 / 4
}

/// Says what kind of file the bytes seem to be.
pub fn detect_file_type_hint(bytes: &[u8]) -> (r: String)
    ensures
        r@ == file_hint(bytes@),
{
    if bytes.len() == 0 {
        return "file is empty".to_string();
    }
    let body = strip_bom_and_whitespace(bytes);
    if starts_with_ci(body, "<!doctype html".as_bytes()) || starts_with_ci(body, "<html".as_bytes())
        || starts_with_ci(body, "<head".as_bytes()) || starts_with_ci(body, "<body".as_bytes()) {
        return "file appears to be HTML".to_string();
    }
    if body.len() > 0 && body[0] == 0x3C && !(body.len() > 1 && body[1] == 0x25) {
        return "file appears to be XML".to_string();
    }
    if body.len() > 0 && (body[0] == 0x7B || body[0] == 0x5B) {
        return "file appears to be JSON".to_string();
    }
    assert([0x89u8, 0x50, 0x4E, 0x47]@ =~= seq![0x89u8, 0x50, 0x4E, 0x47]);
    assert([0xFFu8, 0xD8, 0xFF]@ =~= seq![0xFFu8, 0xD8, 0xFF]);
    assert([0x50u8, 0x4B, 0x03, 0x04]@ =~= seq![0x50u8, 0x4B, 0x03, 0x04]);
    if starts_with_bytes(bytes, &[0x89u8, 0x50, 0x4E, 0x47]) {
        return "file appears to be a PNG image".to_string();
    }
    if starts_with_bytes(bytes, &[0xFFu8, 0xD8, 0xFF]) {
        return "file appears to be a JPEG image".to_string();
    }
    if starts_with_bytes(bytes, &[0x50u8, 0x4B, 0x03, 0x04]) {
        return "file appears to be a ZIP archive (possibly an Office document)".to_string();
    }
    if looks_like_text(bytes) {
        return "file appears to be plain text".to_string();
    }
    "file is not a PDF".to_string()
}

/// The part of a file that is searched for the PDF header.
pub open spec fn header_of(bytes: Seq<u8>) -> Seq<u8> {
    if bytes.len() <= 1024 {
        bytes
    } else {
        bytes.take(1024)
    }
}

/// Whether a file starts like a PDF: within the first 1024 bytes the header comes first, but for
/// a byte order mark and white space.
pub open spec fn is_pdf(bytes: Seq<u8>) -> bool {
    starts(body_of(header_of(bytes)), key("%PDF-"))
}

/// Checks that the bytes start like a PDF.
pub fn validate_pdf_bytes(buffer: &[u8]) -> (r: Result<(), PdfError>)
    ensures
        r is Ok <==> is_pdf(buffer@),
        r matches Err(e) ==> (e matches PdfError::NotAPdf(hint) && hint@ == file_hint(buffer@)),
{
    let n: usize = if buffer.len() <= 1024 {
        buffer.len()
    } else {
        1024
    };
    let header = slice_subrange(buffer, 0, n);
    assert(header@ =~= header_of(buffer@));
    if starts_with_bytes(strip_bom_and_whitespace(header), "%PDF-".as_bytes()) {
        Ok(())
    } else {
        Err(PdfError::NotAPdf(detect_file_type_hint(buffer)))
    }
}

/// An empty file is no PDF.
pub proof fn lemma_empty_is_no_pdf()
    ensures
        !is_pdf(seq![]),
{
    reveal_strlit("%PDF-");
    vstd::utf8::is_ascii_chars_encode_utf8("%PDF-"@);
    assert(vstd::utf8::is_ascii_chars("%PDF-"@));
}

/// Blank space in front does not keep a file from being a PDF, as long as the header stays within
/// the part that is searched.
pub proof fn lemma_leading_space_is_ignored(bytes: Seq<u8>, space: u8)
    requires
        is_ascii_space(space),
        is_pdf(bytes),
        !starts(bytes, seq![0xEFu8, 0xBB, 0xBF]),
        bytes.len() < 1024,
    ensures
        is_pdf(seq![space] + bytes),
{
    let longer = seq![space] + bytes;
    assert(!starts(longer, seq![0xEFu8, 0xBB, 0xBF])) by {
        if starts(longer, seq![0xEFu8, 0xBB, 0xBF]) {
            assert(longer.take(3)[0] == longer[0]);
        }
    }
    assert(body_of(longer) =~= body_of(bytes)) by {
        lemma_blank_end_shift(bytes, space, 0);
        lemma_blank_end_range(bytes, 0);
    }
}

proof fn lemma_blank_end_range(bytes: Seq<u8>, i: int)
    requires
        0 <= i <= bytes.len(),
    ensures
        i <= blank_end(bytes, i) <= bytes.len(),
    decreases bytes.len() - i,
{
    if i < bytes.len() && is_ascii_space(bytes[i]) {
        lemma_blank_end_range(bytes, i + 1);
    }
}

proof fn lemma_blank_end_shift(bytes: Seq<u8>, first: u8, i: int)
    requires
        0 <= i <= bytes.len(),
    ensures
        blank_end(seq![first] + bytes, i + 1) == blank_end(bytes, i) + 1,
    decreases bytes.len() - i,
{
    let longer = seq![first] + bytes;
    if i < bytes.len() {
        assert(longer[i + 1] == bytes[i]);
        if is_ascii_space(bytes[i]) {
            lemma_blank_end_shift(bytes, first, i + 1);
        }
    }
}

} // verus!
