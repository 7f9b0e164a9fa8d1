use pdf_inspector::error::{Failure, PdfError};
use pdf_inspector::process::detect_encoding_issues;
use pdf_inspector::text_utils::{
    decode_text_string, expand_ligatures, is_bold_font, is_cid_font, is_cjk_char, is_italic_font,
    is_rtl_char, is_rtl_text,
};

fn check_bold_and_italic() {
    // Bold
    assert!(is_bold_font("Arial-Bold"));
    assert!(is_bold_font("TimesNewRoman-Bold"));
    assert!(is_bold_font("Helvetica-BoldOblique"));
    assert!(is_bold_font("ABCDEF+ArialMT-Bold"));
    assert!(is_bold_font("NotoSans-Black"));
    assert!(is_bold_font("Roboto-SemiBold"));
    assert!(!is_bold_font("Arial"));
    assert!(!is_bold_font("TimesNewRoman-Italic"));

    // Italic
    assert!(is_italic_font("Arial-Italic"));
    assert!(is_italic_font("TimesNewRoman-Italic"));
    assert!(is_italic_font("Helvetica-Oblique"));
    assert!(is_italic_font("ABCDEF+ArialMT-Italic"));
    assert!(is_italic_font("Helvetica-BoldOblique"));
    assert!(!is_italic_font("Arial"));
    assert!(!is_italic_font("TimesNewRoman-Bold"));

    // Both
    assert!(is_bold_font("Arial-BoldItalic"));
    assert!(is_italic_font("Arial-BoldItalic"));
    assert!(is_bold_font("Helvetica-BoldOblique"));
    assert!(is_italic_font("Helvetica-BoldOblique"));
}

#[test]
fn extractor_test_bold_italic_detection() {
    check_bold_and_italic();
}

#[test]
fn mod_test_bold_italic_detection() {
    check_bold_and_italic();
    assert!(is_bold_font("Foo-Medium"));
    assert!(!is_bold_font("Foo-MediumItalic"));
    assert!(is_bold_font("FOO_BD"));
    assert!(is_italic_font("Garamond-Kursiv"));
}

#[test]
fn test_is_rtl_char() {
    // Hebrew alef
    assert!(is_rtl_char('\u{05D0}'));
    // Arabic alif
    assert!(is_rtl_char('\u{0627}'));
    // Latin 'A' is not RTL
    assert!(!is_rtl_char('A'));
    // CJK is not RTL
    assert!(!is_rtl_char('\u{4E00}'));
}

#[test]
fn test_is_rtl_text() {
    // Majority Hebrew with digits
    assert!(is_rtl_text(&["\u{05E9}\u{05DC}\u{05D5}\u{05DD} 123"]));
    // Majority Latin
    assert!(!is_rtl_text(&["Hello world"]));
    // Empty
    assert!(!is_rtl_text(&[]));
    // A tie
    assert!(!is_rtl_text(&["\u{05E9}", "a"]));
}

#[test]
fn test_hangul_is_cjk() {
    // Hangul Jamo
    assert!(is_cjk_char('\u{1100}'));
    // Hangul Compatibility Jamo
    assert!(is_cjk_char('\u{3131}'));
    // Hangul Syllable
    assert!(is_cjk_char('\u{AC00}'));
    // Latin is not CJK
    assert!(!is_cjk_char('A'));
}

#[test]
fn kana_and_ideographs_are_cjk() {
    assert!(is_cjk_char('\u{3042}'));
    assert!(is_cjk_char('\u{30A2}'));
    assert!(is_cjk_char('\u{4E2D}'));
    assert!(is_cjk_char('\u{FF01}'));
    assert!(!is_cjk_char('\u{2FFF}'));
    assert!(!is_cjk_char('\u{FFF0}'));
}

#[test]
fn composite_fonts_are_told_by_their_names() {
    assert!(is_cid_font("C2_0"));
    assert!(is_cid_font("C0_12"));
    assert!(!is_cid_font("C1_0"));
    assert!(!is_cid_font("F1"));
}

#[test]
fn strings_are_utf16_behind_their_mark() {
    assert_eq!(decode_text_string(&[0xFE, 0xFF, 0x00, 0x41, 0x20, 0xAC]), "A\u{20AC}");
    assert_eq!(decode_text_string(&[0xFE, 0xFF, 0x00, 0x41, 0x42]), "A");
    assert_eq!(decode_text_string(&[0x41, 0xE9]), "A\u{E9}");
    assert_eq!(decode_text_string(&[0xFE]), "\u{FE}");
    assert_eq!(decode_text_string(&[0xFE, 0xFF, 0xD8, 0x00, 0x00, 0x41]), "\u{FFFD}A");
    assert_eq!(decode_text_string(&[0xFE, 0xFF, 0xD8, 0x3D, 0xDE, 0x00]), "\u{1F600}");
}

#[test]
fn ligatures_are_taken_apart() {
    assert_eq!(expand_ligatures("o\u{FB03}ce \u{FB02}oor"), "office floor");
    assert_eq!(expand_ligatures("\u{FB00}\u{FB01}\u{FB04}"), "fffiffl");
    assert_eq!(expand_ligatures("a\u{0}b\tc\nd\re\u{1F}"), "ab\tc\nd\re");
    let once = expand_ligatures("di\u{FB00}er\u{1}");
    assert_eq!(expand_ligatures(&once), once);
}

#[test]
fn test_detect_encoding_issues_fffd() {
    assert!(detect_encoding_issues(
        "Some text with \u{FFFD} replacement"
    ));
}

#[test]
fn test_detect_encoding_issues_dollar_as_space() {
    // "$Workshop$on$Chest$Wall$Deformities$and$..."
    let garbled = "Last$advanced$Book$Programm$3th$Workshop$on$Chest$Wall$Deformities$and$More";
    assert!(detect_encoding_issues(garbled));
}

#[test]
fn test_detect_encoding_issues_financial_text() {
    // Legitimate dollar signs in financial text should NOT trigger
    let financial = "Revenue was $100M in Q1, up from $90M. Costs: $50M, $30M, $20M, $15M, $12M, $8M, $5M, $3M, $2M, $1M, $500K.";
    assert!(!detect_encoding_issues(financial));
}

#[test]
fn test_detect_encoding_issues_clean_text() {
    assert!(!detect_encoding_issues(
        "Normal markdown text with no issues."
    ));
}

#[test]
fn test_detect_encoding_issues_few_dollars() {
    // Under threshold of 10 total dollars
    let text = "a$b c$d e$f";
    assert!(!detect_encoding_issues(text));
}

#[test]
fn many_inner_dollars_are_enough() {
    let mut text = "a$b ".repeat(21);
    text.push_str(&"$5 ".repeat(100));
    assert!(detect_encoding_issues(&text));
    let mut text = "a$b ".repeat(20);
    text.push_str(&"$5 ".repeat(100));
    assert!(!detect_encoding_issues(&text));
}

#[test]
fn failures_are_reported() {
    assert!(matches!(
        PdfError::from_failure(Failure::InvalidPassword, String::new()),
        PdfError::Encrypted
    ));
    assert!(matches!(
        PdfError::from_failure(Failure::Decryption, String::new()),
        PdfError::Encrypted
    ));
    assert!(matches!(
        PdfError::from_failure(Failure::Xref, String::new()),
        PdfError::InvalidStructure
    ));
    assert!(matches!(
        PdfError::from_failure(Failure::InvalidOffset, String::new()),
        PdfError::InvalidStructure
    ));
    let header = PdfError::from_failure(
        Failure::Parse("invalid file header".to_string()),
        "couldn't parse input: invalid file header".to_string(),
    );
    assert_eq!(header.message(), "Not a PDF: invalid PDF file header");
    let other = PdfError::from_failure(Failure::Parse("x".to_string()), "whole".to_string());
    assert_eq!(other.message(), "PDF parsing error: whole");
    let io = PdfError::from_failure(Failure::Io("gone".to_string()), String::new());
    assert_eq!(io.message(), "IO error: gone");
    assert_eq!(PdfError::Encrypted.message(), "PDF is encrypted");
    assert_eq!(PdfError::InvalidStructure.message(), "Invalid PDF structure");
}

#[test]
fn outside_errors_are_told_apart() {
    assert!(matches!(
        PdfError::from_lopdf(lopdf::Error::InvalidPassword),
        PdfError::Encrypted
    ));
    assert!(matches!(
        PdfError::from_lopdf(lopdf::Error::UnsupportedSecurityHandler(vec![1])),
        PdfError::Encrypted
    ));
    assert!(matches!(
        PdfError::from_lopdf(lopdf::Error::MissingXrefEntry),
        PdfError::InvalidStructure
    ));
    let other = PdfError::from_lopdf(lopdf::Error::NoOutline);
    assert_eq!(
        other.message(),
        "PDF parsing error: PDF document does not have an outline"
    );
}

#[test]
fn abbreviated_styles_are_known() {
    assert!(is_bold_font("FuturaPT-Demi") && is_bold_font("Gotham-Semi"));
    assert!(is_italic_font("Univers-Obl"));
}

#[test]
fn strings_in_utf16_are_decoded() {
    let s = "Gr\u{FC}\u{DF}e \u{1F600}";
    let mut bytes = vec![0xFE, 0xFF];
    for unit in s.encode_utf16() {
        bytes.extend(unit.to_be_bytes());
    }
    assert_eq!(decode_text_string(&bytes), s);
}
