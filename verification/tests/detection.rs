use lopdf::{Dictionary, Document, Object, Stream};
use pdf_inspector::{
    DetectionConfig, LayoutComplexity, PdfError, PdfProcessResult, PdfType, PdfTypeResult,
    ScanStrategy,
};
use pdf_inspector::detector::{
    analyze_page_content, classify, decode_title, detect_from_document, detect_pdf_type_mem,
    detect_pdf_type_mem_with_config, distribute_pages, scan_content_for_text_operators,
    select_pages, Confidence, Tally,
};
use pdf_inspector::process::{
    assemble_result, compute_layout_complexity, extract_text_mem, pages_to_extract, plain_text,
    plan_extraction, process_detected, writes_markdown, ExtractedText, Extraction, ProcessMode,
};

#[test]
fn test_scan_content_operators() {
    // Content stream with text operators
    let content = b"BT /F1 12 Tf 100 700 Td (Hello World) Tj ET";
    let (ops, imgs) = scan_content_for_text_operators(content);
    assert_eq!(ops, 1);
    assert!(!imgs);

    // Content with TJ array
    let content2 = b"BT /F1 12 Tf 100 700 Td [(H) 10 (ello)] TJ ET";
    let (ops2, _) = scan_content_for_text_operators(content2);
    assert_eq!(ops2, 1);

    // Content with Do (image)
    let content3 = b"q 100 0 0 100 50 700 cm /Img1 Do Q";
    let (ops3, imgs3) = scan_content_for_text_operators(content3);
    assert_eq!(ops3, 0);
    assert!(imgs3);
}

#[test]
fn operators_end_at_white_space() {
    assert_eq!(scan_content_for_text_operators(b"(a) Tj"), (1, false));
    assert_eq!(scan_content_for_text_operators(b"(a) Tjx (b) TJ]"), (0, false));
    assert_eq!(scan_content_for_text_operators(b"/Im1 Do"), (0, true));
    assert_eq!(scan_content_for_text_operators(b"/Im1 Dot"), (0, false));
    assert_eq!(scan_content_for_text_operators(b""), (0, false));
    assert_eq!(scan_content_for_text_operators(b"T"), (0, false));
}

#[test]
fn quotes_behind_a_string_are_text_operators() {
    assert_eq!(scan_content_for_text_operators(b"(next line) '\n"), (1, false));
    assert_eq!(scan_content_for_text_operators(b"1 2 (spaced)\""), (1, false));
    assert_eq!(scan_content_for_text_operators(b"<41>'"), (1, false));
    assert_eq!(scan_content_for_text_operators(b"(the dogs' tails) Tj"), (1, false));
}

#[test]
fn test_pdf_type_equality() {
    assert_eq!(PdfType::TextBased, PdfType::TextBased);
    assert_eq!(PdfType::Scanned, PdfType::Scanned);
    assert_eq!(PdfType::ImageBased, PdfType::ImageBased);
    assert_eq!(PdfType::Mixed, PdfType::Mixed);
    assert_ne!(PdfType::TextBased, PdfType::Scanned);
}

#[test]
fn test_pdf_type_clone() {
    let original = PdfType::TextBased;
    let cloned = original.clone();
    assert_eq!(original, cloned);
}

#[test]
fn test_pdf_type_debug() {
    let pdf_type = PdfType::TextBased;
    let debug_str = format!("{:?}", pdf_type);
    assert_eq!(debug_str, "TextBased");
}

#[test]
fn test_detection_config_default() {
    let config = DetectionConfig::default();
    assert!(matches!(config.strategy, ScanStrategy::EarlyExit));
    assert_eq!(config.min_text_ops_per_page, 3);
    assert!((config.text_page_ratio_threshold as f32 / 1_000_000.0 - 0.6).abs() < 0.001);
}

#[test]
fn test_detection_config_custom() {
    let config = DetectionConfig {
        strategy: ScanStrategy::Sample(10),
        min_text_ops_per_page: 5,
        text_page_ratio_threshold: 800_000,
    };
    assert!(matches!(config.strategy, ScanStrategy::Sample(10)));
    assert_eq!(config.min_text_ops_per_page, 5);
    assert!((config.text_page_ratio_threshold as f32 / 1_000_000.0 - 0.8).abs() < 0.001);
}

#[test]
fn test_pages_needing_ocr_field_accessible() {
    let sure = Confidence {
        numerator: 1,
        denominator: 1,
    };
    let detection_result = PdfTypeResult {
        pdf_type: PdfType::TextBased,
        page_count: 1,
        pages_sampled: 1,
        pages_with_text: 1,
        confidence: sure,
        title: None,
        ocr_recommended: false,
        pages_needing_ocr: Vec::new(),
    };
    assert!(detection_result.pages_needing_ocr.is_empty());

    let process_result = PdfProcessResult {
        pdf_type: PdfType::TextBased,
        text: None,
        markdown: None,
        page_count: 1,
        processing_time_ms: 0,
        pages_needing_ocr: vec![1, 3],
        title: None,
        confidence: sure,
        layout: LayoutComplexity::default(),
        has_encoding_issues: false,
    };
    assert_eq!(process_result.pages_needing_ocr, vec![1, 3]);
}

#[test]
fn test_text_pdf_process_result_empty_ocr_pages() {
    let pdf_bytes = b"%PDF-1.0
1 0 obj<</Type/Catalog/Pages 2 0 R>>endobj
2 0 obj<</Type/Pages/Kids[3 0 R]/Count 1>>endobj
3 0 obj<</Type/Page/MediaBox[0 0 612 792]/Parent 2 0 R/Contents 4 0 R>>endobj
4 0 obj<</Length 44>>
stream
BT /F1 12 Tf 100 700 Td (Hello World) Tj ET
endstream
endobj
xref
0 5
0000000000 65535 f
0000000009 00000 n
0000000058 00000 n
0000000115 00000 n
0000000206 00000 n
trailer<</Size 5/Root 1 0 R>>
startxref
300
%%EOF";
    // The minimal PDF may fail to parse fully, but if it succeeds,
    // a text-based PDF should have empty pages_needing_ocr.
    if let Ok(result) = detect_pdf_type_mem(pdf_bytes) {
        assert!(
            result.pages_needing_ocr.is_empty(),
            "Text-based PDF should have empty pages_needing_ocr, got: {:?}",
            result.pages_needing_ocr
        );
    }
}

#[test]
fn samples_are_spread_over_the_document() {
    assert_eq!(distribute_pages(0, 10), Vec::<u32>::new());
    assert_eq!(distribute_pages(1, 10), vec![1]);
    assert_eq!(distribute_pages(2, 10), vec![1, 10]);
    assert_eq!(distribute_pages(4, 10), vec![1, 4, 7, 10]);
    assert_eq!(distribute_pages(10, 10), vec![1, 2, 3, 4, 5, 6, 7, 8, 9, 10]);
    assert_eq!(distribute_pages(20, 3), vec![1, 2, 3]);
    assert_eq!(distribute_pages(4, 7), vec![1, 3, 5, 7]);
    let sample = distribute_pages(5, 100);
    assert_eq!(sample.len(), 5);
    assert_eq!((sample[0], sample[4]), (1, 100));
}

#[test]
fn strategies_select_pages() {
    assert_eq!(select_pages(&ScanStrategy::Full, 3), vec![1, 2, 3]);
    assert_eq!(select_pages(&ScanStrategy::EarlyExit, 2), vec![1, 2]);
    assert_eq!(select_pages(&ScanStrategy::Sample(9), 2), vec![1, 2]);
    assert_eq!(
        select_pages(&ScanStrategy::Pages(vec![5, 2, 2, 0, 9]), 5),
        vec![2, 5]
    );
}

fn tally(sampled: u32, with_text: u32, with_images: u32, with_template: u32, any: bool) -> Tally {
    Tally {
        sampled,
        with_text,
        with_images,
        with_template,
        any_text: any,
    }
}

fn fraction(numerator: u64, denominator: u64) -> Confidence {
    Confidence {
        numerator,
        denominator,
    }
}

#[test]
fn documents_are_classified() {
    assert_eq!(
        classify(&tally(5, 3, 0, 0, true), 600_000),
        (PdfType::TextBased, fraction(3, 5), false)
    );
    assert_eq!(
        classify(&tally(4, 4, 2, 2, true), 600_000),
        (PdfType::Mixed, fraction(26, 40), true)
    );
    assert_eq!(
        classify(&tally(4, 0, 4, 0, false), 600_000),
        (PdfType::Scanned, fraction(95, 100), true)
    );
    assert_eq!(
        classify(&tally(4, 0, 4, 0, true), 600_000),
        (PdfType::ImageBased, fraction(80, 100), true)
    );
    assert_eq!(
        classify(&tally(4, 1, 3, 0, true), 600_000),
        (PdfType::Mixed, fraction(70, 100), true)
    );
    assert_eq!(
        classify(&tally(4, 0, 0, 0, false), 600_000),
        (PdfType::Scanned, fraction(90, 100), true)
    );
    assert_eq!(
        classify(&tally(4, 1, 0, 0, true), 600_000),
        (PdfType::TextBased, fraction(50, 100), false)
    );
    assert_eq!(
        classify(&tally(10, 5, 0, 0, true), 600_000),
        (PdfType::TextBased, fraction(5, 10), false)
    );
    assert_eq!(
        classify(&tally(0, 0, 0, 0, false), 600_000),
        (PdfType::Scanned, fraction(90, 100), true)
    );
}

fn dict(entries: Vec<(&str, Object)>) -> Dictionary {
    let mut d = Dictionary::new();
    for (k, v) in entries {
        d.set(k, v);
    }
    d
}

fn name(s: &str) -> Object {
    Object::Name(s.as_bytes().to_vec())
}

/// A document with one page for each content; `true` asks for an image of a million pixels.
fn document(pages: &[(&str, bool)]) -> Document {
    let mut doc = Document::with_version("1.5");
    let pages_id = doc.new_object_id();
    let mut kids = Vec::new();
    for (content, image) in pages {
        let content_id = doc.add_object(Stream::new(Dictionary::new(), content.as_bytes().to_vec()));
        let mut page = dict(vec![
            ("Type", name("Page")),
            ("Parent", Object::Reference(pages_id)),
            ("Contents", Object::Reference(content_id)),
        ]);
        if *image {
            let image_id = doc.add_object(Stream::new(
                dict(vec![
                    ("Subtype", name("Image")),
                    ("Width", Object::Integer(1000)),
                    ("Height", Object::Integer(1000)),
                ]),
                vec![],
            ));
            let xobjects = dict(vec![("Im0", Object::Reference(image_id))]);
            let resources = dict(vec![("XObject", Object::Dictionary(xobjects))]);
            page.set("Resources", Object::Dictionary(resources));
        }
        kids.push(Object::Reference(doc.add_object(page)));
    }
    let count = kids.len() as i64;
    doc.objects.insert(
        pages_id,
        Object::Dictionary(dict(vec![
            ("Type", name("Pages")),
            ("Kids", Object::Array(kids)),
            ("Count", Object::Integer(count)),
        ])),
    );
    let catalog = doc.add_object(dict(vec![
        ("Type", name("Catalog")),
        ("Pages", Object::Reference(pages_id)),
    ]));
    doc.trailer.set("Root", Object::Reference(catalog));
    let info = doc.add_object(dict(vec![("Title", Object::string_literal("A title"))]));
    doc.trailer.set("Info", Object::Reference(info));
    doc
}

const TEXT: &str = "BT (a) Tj (b) Tj [(c)] TJ ET";

#[test]
fn pages_are_analyzed() {
    let doc = document(&[(TEXT, false), ("/Im0 Do", true)]);
    let pages = doc.get_pages();
    let first = analyze_page_content(&doc, pages[&1]);
    assert_eq!(first.text_operator_count, 3);
    assert!(!first.has_images && !first.has_template_image);
    let second = analyze_page_content(&doc, pages[&2]);
    assert_eq!(second.text_operator_count, 0);
    assert!(second.has_images && second.has_template_image);
    assert_eq!(second.total_image_area, 1_000_000);
}

#[test]
fn a_text_document_needs_no_recognition() {
    let doc = document(&[(TEXT, false), (TEXT, false)]);
    let r = detect_from_document(&doc, 2, &DetectionConfig::default()).unwrap();
    assert_eq!(r.pdf_type, PdfType::TextBased);
    assert_eq!((r.page_count, r.pages_sampled, r.pages_with_text), (2, 2, 2));
    assert_eq!(r.confidence, fraction(2, 2));
    assert_eq!(r.title, Some("A title".to_string()));
    assert!(!r.ocr_recommended);
    assert!(r.pages_needing_ocr.is_empty());
}

#[test]
fn a_scan_stops_at_the_first_page_without_text() {
    let doc = document(&[("", true), (TEXT, false), (TEXT, false)]);
    let r = detect_from_document(&doc, 3, &DetectionConfig::default()).unwrap();
    assert_eq!(r.pages_sampled, 1);
    assert_eq!(r.pdf_type, PdfType::Scanned);
    assert_eq!(r.pages_needing_ocr, vec![1, 2, 3]);

    let full = DetectionConfig {
        strategy: ScanStrategy::Full,
        ..Default::default()
    };
    let r = detect_from_document(&doc, 3, &full).unwrap();
    assert_eq!(r.pages_sampled, 3);
    assert_eq!(r.pdf_type, PdfType::Mixed);
    assert_eq!(r.confidence, fraction(21, 30));
    assert_eq!(r.pages_needing_ocr, vec![1]);

    let chosen = DetectionConfig {
        strategy: ScanStrategy::Pages(vec![3, 7]),
        ..Default::default()
    };
    let r = detect_from_document(&doc, 3, &chosen).unwrap();
    assert_eq!((r.pages_sampled, r.pdf_type), (1, PdfType::TextBased));
}

#[test]
fn a_scan_stops_at_a_blank_page() {
    let doc = document(&[(TEXT, false), ("", false), (TEXT, false)]);
    let r = detect_from_document(&doc, 3, &DetectionConfig::default()).unwrap();
    assert_eq!((r.pages_sampled, r.pages_with_text), (2, 1));
}

#[test]
fn operators_of_contents_add_up() {
    let parts: [&[u8]; 3] = [b"(a) Tj", b"' (b) \" (c) Tj", b"[(d)] TJ /Im Do"];
    let count = |c: &[u8]| scan_content_for_text_operators(c).0;
    let joined = parts.join(&b"\n"[..]);
    assert_eq!(count(&joined), parts.iter().map(|p| count(p)).sum::<u32>());
    assert_eq!(count(b"' x"), 1);
}

#[test]
fn saved_documents_are_detected_from_memory() {
    let mut doc = document(&[(TEXT, false)]);
    let mut bytes = Vec::new();
    doc.save_to(&mut bytes).unwrap();
    let r = detect_pdf_type_mem(&bytes).unwrap();
    assert_eq!(r.pdf_type, PdfType::TextBased);
    assert_eq!(r.page_count, 1);
    let r = detect_pdf_type_mem_with_config(
        &bytes,
        DetectionConfig {
            strategy: ScanStrategy::Full,
            min_text_ops_per_page: 4,
            text_page_ratio_threshold: 600_000,
        },
    )
    .unwrap();
    assert_eq!((r.pdf_type, r.confidence), (PdfType::TextBased, fraction(50, 100)));
    let loaded = Document::load_mem(&bytes).unwrap();
    assert_eq!(pages_to_extract(&loaded, None).len(), 1);
    assert_eq!(pages_to_extract(&loaded, Some(&vec![2])).len(), 0);
}

#[test]
fn plain_text_is_extracted() {
    let mut doc = document(&[("BT /F1 12 Tf (Hello) Tj ET", false)]);
    let font = dict(vec![
        ("Type", name("Font")),
        ("Subtype", name("Type1")),
        ("BaseFont", name("Helvetica")),
        ("Encoding", name("WinAnsiEncoding")),
    ]);
    let fonts = dict(vec![("F1", Object::Dictionary(font))]);
    let resources = dict(vec![("Font", Object::Dictionary(fonts))]);
    let page = doc.get_pages()[&1];
    doc.get_dictionary_mut(page)
        .unwrap()
        .set("Resources", Object::Dictionary(resources));
    let mut bytes = Vec::new();
    doc.save_to(&mut bytes).unwrap();
    assert_eq!(extract_text_mem(&bytes).unwrap(), "Hello\n");
    // The file must start with the header.
    assert!(matches!(extract_text_mem(b"%PDG"), Err(PdfError::NotAPdf(_))));
    assert!(matches!(
        extract_text_mem(b"%PDF-1.5\nbroken"),
        Err(PdfError::Parse(_)) | Err(PdfError::InvalidStructure)
    ));
}

#[test]
fn titles_are_decoded() {
    assert_eq!(decode_title(&[0xFE, 0xFF, 0x00, 0x54, 0x26, 0x3A]), "T\u{263A}");
    assert_eq!(decode_title("Gr\u{FC}n".as_bytes()), "Gr\u{FC}n");
    assert_eq!(decode_title(&[0xFC]), "\u{FFFD}");
}

#[test]
fn the_mode_decides_what_is_extracted() {
    assert_eq!(
        plan_extraction(PdfType::TextBased, ProcessMode::Full),
        Extraction::Required
    );
    assert_eq!(
        plan_extraction(PdfType::Mixed, ProcessMode::Analyze),
        Extraction::Optional
    );
    assert_eq!(
        plan_extraction(PdfType::Scanned, ProcessMode::Full),
        Extraction::Skip
    );
    assert_eq!(
        plan_extraction(PdfType::TextBased, ProcessMode::DetectOnly),
        Extraction::Skip
    );
    assert!(writes_markdown(ProcessMode::Full));
    assert!(!writes_markdown(ProcessMode::Analyze));
}

#[test]
fn results_are_put_together() {
    let doc = document(&[(TEXT, false)]);
    let detection = detect_from_document(&doc, 1, &DetectionConfig::default()).unwrap();
    let layout = LayoutComplexity {
        is_complex: true,
        pages_with_tables: vec![1],
        pages_with_columns: vec![],
    };
    let extracted = ExtractedText {
        text: "plain".to_string(),
        layout,
        markdown: Some("bad \u{FFFD}".to_string()),
    };
    let r = assemble_result(detection, Some(extracted), 7);
    assert!(r.has_encoding_issues && r.layout.is_complex);
    assert_eq!((r.processing_time_ms, r.page_count), (7, 1));
    assert_eq!(r.text.as_deref(), Some("plain"));
    assert!(r.markdown.is_some());

    let detection = detect_from_document(&doc, 1, &DetectionConfig::default()).unwrap();
    let r = assemble_result(detection, None, 0);
    assert!(r.text.is_none());
    assert!(r.markdown.is_none() && !r.has_encoding_issues && !r.layout.is_complex);
}

fn found(markdown: bool) -> Result<ExtractedText, String> {
    Ok(ExtractedText {
        text: plain_text(&vec!["one".to_string(), "two".to_string()]),
        layout: LayoutComplexity::default(),
        markdown: if markdown { Some("one".to_string()) } else { None },
    })
}

#[test]
fn text_based_documents_come_with_their_text() {
    let doc = document(&[(TEXT, false)]);
    let detect = || detect_from_document(&doc, 1, &DetectionConfig::default()).unwrap();
    let r = process_detected(detect(), ProcessMode::Full, found, || 5).unwrap();
    assert_eq!(r.text.as_deref(), Some("one\ntwo\n"));
    assert_eq!(r.markdown.as_deref(), Some("one"));
    assert!(r.pages_needing_ocr.is_empty() && r.processing_time_ms == 5);
    let r = process_detected(detect(), ProcessMode::Analyze, found, || 0).unwrap();
    assert!(r.text.is_some() && r.markdown.is_none());
    let r = process_detected(detect(), ProcessMode::DetectOnly, found, || 0).unwrap();
    assert!(r.text.is_none() && r.markdown.is_none());
    let fails = |_: bool| -> Result<ExtractedText, String> { Err("no".to_string()) };
    let r = process_detected(detect(), ProcessMode::Full, fails, || 0);
    assert_eq!(r.unwrap_err(), "no");
}

#[test]
fn mixed_documents_come_without_text_where_it_cannot_be_extracted() {
    let doc = document(&[(TEXT, false)]);
    let mut mixed = detect_from_document(&doc, 1, &DetectionConfig::default()).unwrap();
    mixed.pdf_type = PdfType::Mixed;
    let fails = |_: bool| -> Result<ExtractedText, String> { Err("no".to_string()) };
    let r = process_detected(mixed, ProcessMode::Full, fails, || 0).unwrap();
    assert!(r.text.is_none() && r.markdown.is_none() && r.pdf_type == PdfType::Mixed);
}

#[test]
fn many_rectangles_or_columns_make_a_layout_complex() {
    let rects = vec![2, 2, 2, 2, 2, 2, 2, 1, 1];
    let r = compute_layout_complexity(&vec![3, 1, 3], &rects, |page| if page == 3 { 2 } else { 1 });
    assert_eq!(r.pages_with_tables, vec![2]);
    assert_eq!(r.pages_with_columns, vec![3]);
    assert!(r.is_complex);
    let r = compute_layout_complexity(&vec![1], &vec![1; 6], |_| 1);
    assert!(!r.is_complex);
}
