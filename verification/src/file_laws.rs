//! What a file is taken for, and what is told where it cannot be read: laws on headers, hints and errors.

use crate::error::{reports, FailureKind, PdfError};
use crate::pdf::key;
use crate::text::has_text;
use crate::validation::{
    blank_end, body_of, file_hint, is_ascii_space, is_pdf, is_printable, lower_byte,
    printable_count, starts, starts_folded,
};
use vstd::prelude::*;

verus! {

proof fn lemma_blank_run(bytes: Seq<u8>, i: int, e: int)
    requires
        0 <= i <= e <= bytes.len(),
        forall|k: int| i <= k < e ==> is_ascii_space(#[trigger] bytes[k]),
        e < bytes.len() ==> !is_ascii_space(bytes[e]),
    ensures
        blank_end(bytes, i) == e,
    decreases e - i,
{
    if i < e {
        assert(is_ascii_space(bytes[i]));
        lemma_blank_run(bytes, i + 1, e);
    }
}

/// The bytes that a PDF file starts with.
pub open spec fn pdf_header() -> Seq<u8> {
    seq![0x25u8, 0x50, 0x44, 0x46, 0x2D]
}

proof fn lemma_header()
    ensures
        key("%PDF-") == pdf_header(),
{
    reveal_strlit("%PDF-");
    vstd::utf8::is_ascii_chars_encode_utf8("%PDF-"@);
    assert(key("%PDF-") =~= pdf_header());
}

/// Whether bytes are blank space: spaces, tabs, line feeds, form feeds and carriage returns.
pub open spec fn are_blank(bytes: Seq<u8>) -> bool {
    forall|k: int|
        0 <= k < bytes.len() ==> (#[trigger] bytes[k]) == 32 || bytes[k] == 9 || bytes[k] == 10
            || bytes[k] == 12 || bytes[k] == 13
}

/// A file is a PDF where its header comes first, behind blank space and a byte order mark at most, and
/// within 1024 bytes.
pub proof fn lemma_headers_make_a_pdf(blank: Seq<u8>, rest: Seq<u8>)
    requires
        are_blank(blank),
        blank.len() + 8 <= 1024,
    ensures
        is_pdf(blank + pdf_header() + rest),
        is_pdf(seq![0xEFu8, 0xBB, 0xBF] + blank + pdf_header() + rest),
{
    lemma_header();
    lemma_body_of_header(blank, rest, false);
    lemma_body_of_header(blank, rest, true);
}

proof fn lemma_body_of_header(blank: Seq<u8>, rest: Seq<u8>, marked: bool)
    requires
        are_blank(blank),
        blank.len() + 8 <= 1024,
    ensures
        !marked ==> is_pdf(blank + pdf_header() + rest),
        marked ==> is_pdf(seq![0xEFu8, 0xBB, 0xBF] + blank + pdf_header() + rest),
{
    lemma_header();
    let mark = seq![0xEFu8, 0xBB, 0xBF];
    let n = blank.len() as int;
    let bytes = if marked {
        mark + blank + pdf_header() + rest
    } else {
        blank + pdf_header() + rest
    };
    let m: int = if marked {
        3
    } else {
        0
    };
    let head = crate::validation::header_of(bytes);
    assert(head.len() >= m + n + 5);
    assert forall|k: int| 0 <= k < m + n + 5 implies head[k] == #[trigger] bytes[k] by {}
    assert(bytes[m + n] == 0x25);
    assert(bytes[m + n + 1] == 0x50);
    assert(bytes[m + n + 2] == 0x44);
    assert(bytes[m + n + 3] == 0x46);
    assert(bytes[m + n + 4] == 0x2D);
    if marked {
        assert(bytes[0] == 0xEF && bytes[1] == 0xBB && bytes[2] == 0xBF);
        assert(head.take(3) =~= mark);
    } else {
        if starts(head, mark) {
            assert(head.take(3)[0] == 0xEF);
            assert(head[0] == 0xEF);
            if n > 0 {
                assert(bytes[0] == blank[0]);
            }
        }
    }
    let body = if marked {
        head.skip(3)
    } else {
        head
    };
    assert forall|k: int| 0 <= k < n implies is_ascii_space(#[trigger] body[k]) by {
        assert(body[k] == bytes[m + k]);
        assert(bytes[m + k] == blank[k]);
    }
    assert(body[n] == bytes[m + n]);
    lemma_blank_run(body, 0, n);
    let found = body.skip(n);
    assert(body_of(head) == found);
    assert forall|k: int| 0 <= k < 5 implies found.take(5)[k] == #[trigger] pdf_header()[k] by {
        assert(found[k] == bytes[m + n + k]);
    }
    assert(found.take(5) =~= pdf_header());
}

/// A file whose first byte is neither blank, nor a percent sign, nor that of a byte order mark is no PDF,
/// whatever follows.
pub proof fn lemma_what_no_pdf_is(bytes: Seq<u8>)
    requires
        bytes.len() > 0,
        bytes[0] != 0x25,
        bytes[0] != 0xEF,
        bytes[0] != 32 && bytes[0] != 9 && bytes[0] != 10 && bytes[0] != 12 && bytes[0] != 13,
    ensures
        !is_pdf(bytes),
{
    lemma_header();
    let head = crate::validation::header_of(bytes);
    assert(head[0] == bytes[0]);
    if starts(head, seq![0xEFu8, 0xBB, 0xBF]) {
        assert(head.take(3)[0] == 0xEF);
    }
    lemma_blank_run(head, 0, 0);
    assert(body_of(head) =~= head);
    if starts(head, pdf_header()) {
        assert(head.take(5)[0] == 0x25);
    }
}

proof fn lemma_plain_body(bytes: Seq<u8>)
    requires
        bytes.len() > 0,
        bytes[0] != 0xEF,
        !is_ascii_space(bytes[0]),
    ensures
        body_of(bytes) == bytes,
{
    if starts(bytes, seq![0xEFu8, 0xBB, 0xBF]) {
        assert(bytes.take(3)[0] == 0xEF);
    }
    lemma_blank_run(bytes, 0, 0);
    assert(body_of(bytes) =~= bytes);
}

proof fn lemma_html_keys()
    ensures
        key("<!doctype html")[0] == 0x3C && key("<!doctype html").len() > 0,
        key("<html")[0] == 0x3C && key("<html").len() == 5,
        key("<html")[1] == 0x68 && key("<html")[2] == 0x74 && key("<html")[3] == 0x6D && key("<html")[4]
            == 0x6C,
        key("<head")[0] == 0x3C && key("<head").len() > 0,
        key("<body")[0] == 0x3C && key("<body").len() > 0,
        key("<head")[1] == 0x68 && key("<head").len() > 1,
        key("<body")[1] == 0x62 && key("<body").len() > 1,
        key("<!doctype html")[1] == 0x21 && key("<!doctype html").len() > 1,
{
    reveal_strlit("<!doctype html");
    reveal_strlit("<html");
    reveal_strlit("<head");
    reveal_strlit("<body");
    vstd::utf8::is_ascii_chars_encode_utf8("<!doctype html"@);
    vstd::utf8::is_ascii_chars_encode_utf8("<html"@);
    vstd::utf8::is_ascii_chars_encode_utf8("<head"@);
    vstd::utf8::is_ascii_chars_encode_utf8("<body"@);
}

/// A file is named by what it starts with: HTML by its tags, in capitals or small letters; XML by another
/// angle bracket; JSON by a brace or a square bracket; images and archives by their marks.
pub proof fn lemma_files_are_named(rest: Seq<u8>, letter: u8)
    requires
        0x61 <= letter <= 0x67 || letter == 0x3F,
        letter != 0x62,
    ensures
        file_hint(Seq::<u8>::empty()) == "file is empty"@,
        file_hint(seq![0x3Cu8, 0x68, 0x74, 0x6D, 0x6C] + rest) == "file appears to be HTML"@,
        file_hint(seq![0x3Cu8, 0x48, 0x54, 0x4D, 0x4C] + rest) == "file appears to be HTML"@,
        file_hint(seq![0x3Cu8, letter] + rest) == "file appears to be XML"@,
        file_hint(seq![0x7Bu8] + rest) == "file appears to be JSON"@,
        file_hint(seq![0x5Bu8] + rest) == "file appears to be JSON"@,
        file_hint(seq![0x89u8, 0x50, 0x4E, 0x47] + rest) == "file appears to be a PNG image"@,
        file_hint(seq![0xFFu8, 0xD8, 0xFF] + rest) == "file appears to be a JPEG image"@,
        file_hint(seq![0x50u8, 0x4B, 0x03, 0x04] + rest)
            == "file appears to be a ZIP archive (possibly an Office document)"@,
{
    lemma_html_keys();
    let a = seq![0x3Cu8, 0x68, 0x74, 0x6D, 0x6C] + rest;
    let b = seq![0x3Cu8, 0x48, 0x54, 0x4D, 0x4C] + rest;
    let c = seq![0x3Cu8, letter] + rest;
    let d = seq![0x7Bu8] + rest;
    let e = seq![0x5Bu8] + rest;
    let f = seq![0x89u8, 0x50, 0x4E, 0x47] + rest;
    let g = seq![0xFFu8, 0xD8, 0xFF] + rest;
    let h = seq![0x50u8, 0x4B, 0x03, 0x04] + rest;
    lemma_plain_body(a);
    lemma_plain_body(b);
    lemma_plain_body(c);
    lemma_plain_body(d);
    lemma_plain_body(e);
    lemma_plain_body(f);
    lemma_plain_body(g);
    lemma_plain_body(h);
    assert(starts_folded(a, key("<html")));
    assert(starts_folded(b, key("<html")));
    assert(lower_byte(c[1]) == letter);
    assert(c[0] == 0x3C && c[1] == letter);
    lemma_not_folded(c, key("<!doctype html"), 1);
    lemma_not_folded(c, key("<html"), 1);
    lemma_not_folded(c, key("<head"), 1);
    lemma_not_folded(c, key("<body"), 1);
    lemma_no_html(d);
    lemma_no_html(e);
    lemma_no_html(f);
    lemma_no_html(g);
    lemma_no_html(h);
    assert(f.take(4) =~= seq![0x89u8, 0x50, 0x4E, 0x47]);
    assert(g.take(3) =~= seq![0xFFu8, 0xD8, 0xFF]);
    assert(h.take(4) =~= seq![0x50u8, 0x4B, 0x03, 0x04]);
    if starts(g, seq![0x89u8, 0x50, 0x4E, 0x47]) {
        assert(g.take(4)[0] == 0x89);
    }
    if starts(h, seq![0x89u8, 0x50, 0x4E, 0x47]) {
        assert(h.take(4)[0] == 0x89);
    }
    if starts(h, seq![0xFFu8, 0xD8, 0xFF]) {
        assert(h.take(3)[0] == 0xFF);
    }
}

proof fn lemma_not_folded(bytes: Seq<u8>, prefix: Seq<u8>, i: int)
    requires
        0 <= i < prefix.len(),
        i < bytes.len(),
        lower_byte(bytes[i]) != lower_byte(prefix[i]),
    ensures
        !starts_folded(bytes, prefix),
{
    if starts_folded(bytes, prefix) {
        assert(lower_byte(bytes[i]) == lower_byte(prefix[i]));
    }
}

proof fn lemma_no_html(bytes: Seq<u8>)
    requires
        bytes.len() > 0,
        bytes[0] != 0x3C,
    ensures
        !crate::validation::is_html(bytes),
{
    lemma_html_keys();
    if lower_byte(bytes[0]) == 0x3C {
        assert(bytes[0] == 0x3C);
    }
    lemma_not_folded(bytes, key("<!doctype html"), 0);
    lemma_not_folded(bytes, key("<html"), 0);
    lemma_not_folded(bytes, key("<head"), 0);
    lemma_not_folded(bytes, key("<body"), 0);
}

proof fn lemma_all_printable(bytes: Seq<u8>, yes: bool)
    requires
        forall|k: int| 0 <= k < bytes.len() ==> is_printable(#[trigger] bytes[k]) == yes,
    ensures
        printable_count(bytes) == if yes {
            bytes.len()
        } else {
            0
        },
    decreases bytes.len(),
{
    if bytes.len() > 0 {
        let short = bytes.drop_last();
        assert forall|k: int| 0 <= k < short.len() implies is_printable(#[trigger] short[k]) == yes by {
            assert(short[k] == bytes[k]);
        }
        lemma_all_printable(short, yes);
        assert(is_printable(bytes[bytes.len() - 1]) == yes);
    }
}

/// A file that starts with a letter and holds letters, digits and blanks alone is plain text; one of
/// control bytes alone is none.
pub proof fn lemma_plain_text_is_named(bytes: Seq<u8>)
    requires
        bytes.len() > 0,
        bytes.len() <= usize::MAX,
    ensures
        0x61 <= bytes[0] <= 0x7A && (forall|k: int|
            0 <= k < bytes.len() ==> 0x20 <= #[trigger] bytes[k] <= 0x7E) ==> file_hint(bytes)
            == "file appears to be plain text"@,
        (forall|k: int| 0 <= k < bytes.len() ==> #[trigger] bytes[k] < 9) ==> file_hint(bytes)
            == "file is not a PDF"@,
{
    let sample = if bytes.len() <= 512 {
        bytes
    } else {
        bytes.take(512)
    };
    if 0x61 <= bytes[0] <= 0x7A && (forall|k: int|
        0 <= k < bytes.len() ==> 0x20 <= #[trigger] bytes[k] <= 0x7E) {
        lemma_other_start(bytes);
        assert forall|k: int| 0 <= k < sample.len() implies is_printable(#[trigger] sample[k]) == true by {
            assert(0x20 <= bytes[k] <= 0x7E);
        }
        lemma_all_printable(sample, true);
    }
    if forall|k: int| 0 <= k < bytes.len() ==> #[trigger] bytes[k] < 9 {
        assert(bytes[0] < 9);
        lemma_other_start(bytes);
        assert forall|k: int| 0 <= k < sample.len() implies is_printable(#[trigger] sample[k])
            == false by {
            assert(bytes[k] < 9);
        }
        lemma_all_printable(sample, false);
    }
}

proof fn lemma_other_start(bytes: Seq<u8>)
    requires
        bytes.len() > 0,
        0x61 <= bytes[0] <= 0x7A || bytes[0] < 9,
    ensures
        body_of(bytes) == bytes,
        !crate::validation::is_html(bytes),
        !starts(bytes, seq![0x89u8, 0x50, 0x4E, 0x47]),
        !starts(bytes, seq![0xFFu8, 0xD8, 0xFF]),
        !starts(bytes, seq![0x50u8, 0x4B, 0x03, 0x04]),
{
    lemma_plain_body(bytes);
    lemma_no_html(bytes);
    if starts(bytes, seq![0x89u8, 0x50, 0x4E, 0x47]) {
        assert(bytes.take(4)[0] == 0x89);
    }
    if starts(bytes, seq![0xFFu8, 0xD8, 0xFF]) {
        assert(bytes.take(3)[0] == 0xFF);
    }
    if starts(bytes, seq![0x50u8, 0x4B, 0x03, 0x04]) {
        assert(bytes.take(4)[0] == 0x50);
    }
}

/// What fails is told by its kind: a password or a security handler as an encrypted file, a broken
/// table, object or offset as an invalid structure, a wrong header as no PDF, and any other failure of
/// the parser with its message.
pub proof fn lemma_failures_are_told(error: PdfError, message: Seq<char>, inner: Seq<char>)
    ensures
        reports(error, FailureKind::Io, message) ==> error is Io,
        reports(error, FailureKind::Decryption, message) ==> error is Encrypted,
        reports(error, FailureKind::InvalidPassword, message) ==> error is Encrypted,
        reports(error, FailureKind::AlreadyEncrypted, message) ==> error is Encrypted,
        reports(error, FailureKind::UnsupportedSecurityHandler, message) ==> error is Encrypted,
        reports(error, FailureKind::MissingXrefEntry, message) ==> error is InvalidStructure,
        reports(error, FailureKind::Xref, message) ==> error is InvalidStructure,
        reports(error, FailureKind::IndirectObject, message) ==> error is InvalidStructure,
        reports(error, FailureKind::ObjectIdMismatch, message) ==> error is InvalidStructure,
        reports(error, FailureKind::InvalidObjectStream, message) ==> error is InvalidStructure,
        reports(error, FailureKind::InvalidOffset, message) ==> error is InvalidStructure,
        reports(error, FailureKind::Other, message) ==> error.message_text()
            == "PDF parsing error: "@ + message,
        has_text(inner, "invalid file header"@) && reports(error, FailureKind::Parse(inner), message)
            ==> error.message_text() == "Not a PDF: "@ + "invalid PDF file header"@,
        !has_text(inner, "invalid file header"@) && reports(error, FailureKind::Parse(inner), message)
            ==> error.message_text() == "PDF parsing error: "@ + message,
        error is Encrypted ==> error.message_text() == "PDF is encrypted"@,
        error is InvalidStructure ==> error.message_text() == "Invalid PDF structure"@,
{
}

} // verus!
