use pdf_inspector::PdfError;
use pdf_inspector::detector::detect_pdf_type_mem;
use pdf_inspector::encodings::GlyphNames;
use pdf_inspector::extract::extract_pages_mem;
use pdf_inspector::process::extract_text_mem;
use pdf_inspector::validation::{
    detect_file_type_hint, starts_with_ci, strip_bom_and_whitespace, validate_pdf_bytes,
};

/// Asserts that an error is NotAPdf and that its message contains the given text.
fn assert_not_a_pdf(result: Result<impl std::fmt::Debug, PdfError>, expected_hint: &str) {
    match result {
        Err(PdfError::NotAPdf(msg)) => {
            assert!(
                msg.to_lowercase().contains(&expected_hint.to_lowercase()),
                "Expected hint '{}' in NotAPdf message, got: '{}'",
                expected_hint,
                msg,
            );
        }
        other => panic!(
            "Expected Err(NotAPdf) containing '{}', got: {:?}",
            expected_hint, other,
        ),
    }
}

#[test]
fn test_not_a_pdf_html_input() {
    let html = b"<!DOCTYPE html><html><body>Hello</body></html>";
    assert_not_a_pdf(detect_pdf_type_mem(html), "HTML");
}

#[test]
fn test_not_a_pdf_xml_input() {
    let xml = b"<?xml version=\"1.0\"?><root><item>data</item></root>";
    assert_not_a_pdf(detect_pdf_type_mem(xml), "XML");
}

#[test]
fn test_not_a_pdf_json_input() {
    let json = b"{\"error\": \"download failed\"}";
    assert_not_a_pdf(detect_pdf_type_mem(json), "JSON");
}

#[test]
fn test_not_a_pdf_plain_text_input() {
    let text = b"This is a plain text file that is not a PDF at all.";
    assert_not_a_pdf(detect_pdf_type_mem(text), "plain text");
}

#[test]
fn test_not_a_pdf_empty_buffer() {
    assert_not_a_pdf(detect_pdf_type_mem(b""), "empty");
}

#[test]
fn test_valid_pdf_header_not_rejected() {
    // A truncated but valid PDF header should NOT produce NotAPdf
    let truncated_pdf = b"%PDF-1.4\ntruncated content";
    if let Err(PdfError::NotAPdf(_)) = detect_pdf_type_mem(truncated_pdf) {
        panic!("Valid PDF header should not be rejected as NotAPdf");
    }
}

#[test]
fn test_bom_prefixed_pdf_header_not_rejected() {
    // UTF-8 BOM + %PDF- should still be recognized as a PDF
    let mut bom_pdf = vec![0xEF, 0xBB, 0xBF];
    bom_pdf.extend_from_slice(b"%PDF-1.7\ntruncated");
    if let Err(PdfError::NotAPdf(_)) = detect_pdf_type_mem(&bom_pdf) {
        panic!("BOM-prefixed PDF header should not be rejected as NotAPdf");
    }
}

#[test]
fn test_not_a_pdf_detect_pdf_type_mem() {
    let html = b"<html><head><title>Not a PDF</title></head></html>";
    assert_not_a_pdf(detect_pdf_type_mem(html), "HTML");
}

#[test]
fn test_not_a_pdf_extract_text_with_positions_mem() {
    let html = b"<!DOCTYPE html><html><body>content</body></html>";
    let glyphs = GlyphNames { names: vec![] };
    let result = extract_pages_mem(html, None, &glyphs, |_| Vec::new());
    assert_not_a_pdf(result.map(|pages| pages.len()), "HTML");
}

#[test]
fn test_not_a_pdf_extract_text_mem() {
    let xml = b"<?xml version=\"1.0\"?><data/>";
    assert_not_a_pdf(extract_text_mem(xml), "XML");
}

#[test]
fn hints_name_the_kind_of_file() {
    assert_eq!(detect_file_type_hint(b""), "file is empty");
    assert_eq!(detect_file_type_hint(b"  <BODY>"), "file appears to be HTML");
    assert_eq!(detect_file_type_hint(b"<svg/>"), "file appears to be XML");
    assert_eq!(detect_file_type_hint(b"<% asp %>"), "file appears to be plain text");
    assert_eq!(detect_file_type_hint(b"\n[1]"), "file appears to be JSON");
    assert_eq!(
        detect_file_type_hint(&[0x89, 0x50, 0x4E, 0x47]),
        "file appears to be a PNG image"
    );
    assert_eq!(
        detect_file_type_hint(&[0xFF, 0xD8, 0xFF, 0xE0]),
        "file appears to be a JPEG image"
    );
    assert_eq!(
        detect_file_type_hint(&[0x50, 0x4B, 0x03, 0x04]),
        "file appears to be a ZIP archive (possibly an Office document)"
    );
    assert_eq!(detect_file_type_hint(&[0, 1, 2, 3]), "file is not a PDF");
    // Three quarters are not more than three quarters.
    assert_eq!(detect_file_type_hint(b"abc\x00"), "file is not a PDF");
}

#[test]
fn marks_and_blanks_are_stripped() {
    assert_eq!(strip_bom_and_whitespace(b"\xEF\xBB\xBF \t\r\n\x0Cx "), b"x ");
    assert_eq!(strip_bom_and_whitespace(b"\x0Bx"), b"\x0Bx");
    assert_eq!(strip_bom_and_whitespace(b"   "), b"");
    assert!(starts_with_ci(b"HtMl>", b"html"));
    assert!(!starts_with_ci(b"htm", b"html"));
}

#[test]
fn the_header_has_to_come_first() {
    assert!(validate_pdf_bytes(b"%PDF-1.7").is_ok());
    assert!(validate_pdf_bytes(b" \n%PDF-1.7").is_ok());
    assert!(validate_pdf_bytes(b"x%PDF-1.7").is_err());
    assert!(validate_pdf_bytes(b"%pdf-1.7").is_err());
    let mut late = vec![b' '; 1020];
    late.extend_from_slice(b"%PDF-1.7");
    assert!(validate_pdf_bytes(&late).is_err());
}
