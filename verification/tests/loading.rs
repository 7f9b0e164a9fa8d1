use lopdf::{Dictionary, Document, Object, Stream};
use pdf_inspector::{detect_pdf_type_mem, ItemType, MarkdownOptions, PdfError};
use pdf_inspector::content::Step;
use pdf_inspector::convert::DocLine;
use pdf_inspector::encodings::GlyphNames;
use pdf_inspector::extract::{extract_pages, extract_pages_mem};
use pdf_inspector::layout::Spot;
use pdf_inspector::loading::load_document;
use pdf_inspector::page_lines::group_pages;
use pdf_inspector::pieces::{
    piece_kind, to_markdown_from_pieces, to_markdown_from_pieces_with_rects, DocPiece, DocRect,
    PieceKind,
};
use pdf_inspector::process::extract_text_mem;
use pdf_inspector::widths::FontWidthInfo;

fn dict(entries: Vec<(&str, Object)>) -> Dictionary {
    let mut d = Dictionary::new();
    for (k, v) in entries {
        d.set(k, v);
    }
    d
}

fn name(s: &str) -> Object {
    Object::Name(s.as_bytes().to_vec())
}

/// The bytes of a document with one page for each content. Each page has a link and a form.
fn saved(contents: &[&str]) -> Vec<u8> {
    let mut doc = Document::with_version("1.5");
    let pages_id = doc.new_object_id();
    let mut form = Stream::new(
        dict(vec![("Subtype", name("Form"))]),
        b"BT 1 0 0 1 5 5 Tm ET ".repeat(20),
    );
    form.compress().unwrap();
    let form = doc.add_object(form);
    let xobjects = dict(vec![("Fm0", Object::Reference(form))]);
    let mut kids = Vec::new();
    for content in contents {
        let content_id = doc.add_object(Stream::new(Dictionary::new(), content.as_bytes().to_vec()));
        let action = dict(vec![("URI", Object::string_literal("http://a.example"))]);
        let link = dict(vec![
            ("Subtype", name("Link")),
            ("Rect", Object::Array((1..5).map(Object::Integer).collect())),
            ("A", Object::Dictionary(action)),
        ]);
        kids.push(Object::Reference(doc.add_object(dict(vec![
            ("Type", name("Page")),
            ("Parent", Object::Reference(pages_id)),
            ("Contents", Object::Reference(content_id)),
            ("Annots", Object::Array(vec![Object::Dictionary(link)])),
            (
                "Resources",
                Object::Dictionary(dict(vec![("XObject", Object::Dictionary(xobjects.clone()))])),
            ),
        ]))));
    }
    let count = kids.len() as i64;
    doc.objects.insert(
        pages_id,
        Object::Dictionary(dict(vec![
            ("Type", name("Pages")),
            ("Kids", Object::Array(kids)),
            ("Count", Object::Integer(count)),
        ])),
    );
    let catalog = doc.add_object(dict(vec![
        ("Type", name("Catalog")),
        ("Pages", Object::Reference(pages_id)),
    ]));
    doc.trailer.set("Root", Object::Reference(catalog));
    let mut bytes = Vec::new();
    doc.save_to(&mut bytes).unwrap();
    bytes
}

fn no_gaps(_: &Vec<(Vec<char>, FontWidthInfo)>) -> Vec<(Vec<char>, (u32, u32))> {
    Vec::new()
}

fn no_glyphs() -> GlyphNames {
    GlyphNames { names: vec![] }
}

#[test]
fn pages_are_extracted_from_bytes() {
    let bytes = saved(&["q Q", "/Fm0 Do q", "Q"]);
    let pages = extract_pages_mem(&bytes, None, &no_glyphs(), no_gaps).unwrap();
    assert_eq!(pages.iter().map(|p| p.page).collect::<Vec<_>>(), vec![1, 2, 3]);
    assert_eq!(pages[0].steps.len(), 2);
    assert!(pages[0].forms.is_empty());
    assert_eq!(pages[0].links.len(), 1);
    assert_eq!(pages[0].links[0].url, "http://a.example");
    assert!(matches!(pages[1].steps[0], Step::Form(_)));
    assert_eq!(pages[1].forms.len(), 1);
    assert_eq!(pages[1].forms[0].as_ref().map(|f| f.len()), Some(40));

    let chosen = vec![3, 9];
    let pages = extract_pages_mem(&bytes, Some(&chosen), &no_glyphs(), no_gaps).unwrap();
    assert_eq!(pages.iter().map(|p| p.page).collect::<Vec<_>>(), vec![3]);
    let doc = load_document(&bytes).unwrap();
    assert_eq!(extract_pages(&doc, None, &no_glyphs(), no_gaps).unwrap().len(), 3);
}

#[test]
fn a_page_that_cannot_be_read_is_an_error() {
    let bytes = saved(&["q", "BI /W 1 /H 1 /BPC 8 ID x EI"]);
    let r = extract_pages_mem(&bytes, None, &no_glyphs(), no_gaps);
    assert!(matches!(r, Err(PdfError::Parse(_))));
    let first = vec![1];
    assert!(extract_pages_mem(&bytes, Some(&first), &no_glyphs(), no_gaps).is_ok());
}

#[test]
fn what_is_no_pdf_is_not_loaded() {
    assert!(matches!(load_document(b"<html></html>"), Err(PdfError::NotAPdf(_))));
    assert!(matches!(load_document(b""), Err(PdfError::NotAPdf(_))));
    assert!(load_document(b"%PDF-1.5\n").is_err());
}

/// A file that holds one object, at offset 9, as its stream of offsets.
fn with_offsets(entries: &str, data: &str) -> Vec<u8> {
    let head = "%PDF-1.5\n";
    format!(
        "{}1 0 obj\n<</Type/XRef/Length {}/Size 3{}>>\nstream\n{}\nendstream\nendobj\n\
         startxref\n{}\n%%EOF\n",
        head,
        data.len(),
        entries,
        data,
        head.len(),
    )
    .into_bytes()
}

fn is_refused(bytes: &[u8]) -> bool {
    match load_document(bytes) {
        Err(PdfError::Parse(m)) => m == "malformed file structure",
        _ => false,
    }
}

#[test]
fn streams_of_offsets_need_widths() {
    assert!(!is_refused(&with_offsets("/W[1 2 1]", "aaaabbbbcccc")));
    assert!(is_refused(&with_offsets("/W[0 0 0]/Index[0 9223372036854775807]", "")));
    assert!(is_refused(&with_offsets("/#57 [ 0 % none\n 0 0 ]", "")));
    assert!(is_refused(&with_offsets("/W[99999999 0 0]", "")));
    assert!(is_refused(&with_offsets("/W[1 2 1]/Index[9223372036854775807 2]", "aaaabbbb")));
    // Widths of glyphs are no widths of offsets.
    let fonts = b"%PDF-1.5\n2 0 obj <</Type/Font/W[0 0 0]>> endobj";
    assert!(!is_refused(fonts));
}

#[test]
fn tables_of_offsets_have_numbers_in_range() {
    let table = |start: &str| {
        format!("%PDF-1.5\nxref\n{} 1\n0000000000 65535 f \ntrailer <</Size 1>>\n", start)
    };
    assert!(!is_refused(table("0").as_bytes()));
    assert!(is_refused(table("18446744073709551615").as_bytes()));
    assert!(!is_refused(table("0000000000000000000000000").as_bytes()));
}

#[test]
fn objects_are_not_nested_too_deeply() {
    let file = |depth: usize| format!("%PDF-1.5\n1 0 obj {} endobj", "[".repeat(depth));
    assert!(!is_refused(file(32).as_bytes()));
    assert!(is_refused(file(33).as_bytes()));
    assert!(is_refused(file(200_000).as_bytes()));
    let named = "<</A".repeat(33);
    assert!(is_refused(format!("%PDF-1.5\n1 0 obj {}", named).as_bytes()));
    // Brackets in strings and comments do not count.
    let strings = format!("%PDF-1.5\n1 0 obj [({}\\) ) %{}\n] endobj", "a".repeat(500), "b");
    assert!(!is_refused(strings.as_bytes()));
}

#[test]
fn hidden_images_and_links_change_nothing() {
    let kinds = [
        ItemType::Image,
        ItemType::default(),
        ItemType::Link("http://a.example".to_string()),
        ItemType::FormField,
    ];
    let all: Vec<DocPiece> = (0..4)
        .map(|id| DocPiece {
            kind: piece_kind(&kinds[id]),
            size: 1200,
            id,
        })
        .collect();
    assert_eq!(all[1].kind, PieceKind::Text);
    let texts = vec![all[1], all[3]];
    let spots: Vec<Spot> = (0..4)
        .map(|i| Spot {
            page: 1,
            x: 0,
            y: (700.0f32 - i as f32 * 20.0).to_bits(),
        })
        .collect();
    let names: Vec<String> = ["image.png", "first text", "http://a.example", "a field"]
        .iter()
        .map(|s| s.to_string())
        .collect();
    let write = |pieces: &Vec<DocPiece>, options: &MarkdownOptions| {
        let lines = |rest: &Vec<DocPiece>, _: u32, _: &Vec<u32>| {
            rest.iter()
                .map(|p| DocLine {
                    spot: spots[p.id],
                    size: p.size,
                    is_mono: false,
                    text: names[p.id].clone(),
                })
                .collect()
        };
        to_markdown_from_pieces(pieces, &spots, &names, options, |_, _| Vec::new(), lines)
    };
    let off = MarkdownOptions {
        include_images: false,
        include_links: false,
        ..Default::default()
    };
    assert_eq!(write(&all, &off), write(&texts, &off));
    assert!(write(&all, &off).contains("first text") && write(&all, &off).contains("a field"));
    let on = MarkdownOptions::default();
    assert_ne!(write(&all, &on), write(&texts, &on));
    // No rectangles are the same as none at all.
    let lines = |_: &Vec<DocPiece>, _: u32, _: &Vec<u32>| Vec::new();
    let rects = Vec::new();
    let tables = |_: &Vec<DocPiece>, _: &Vec<DocRect>| Vec::new();
    assert_eq!(
        to_markdown_from_pieces_with_rects(&all, &spots, &names, &on, &rects, tables, lines),
        to_markdown_from_pieces(&all, &spots, &names, &on, tables, lines)
    );
}

#[test]
fn lines_hold_all_but_page_numbers() {
    let spot = |page: u32, y: f32| Spot {
        page,
        x: 0,
        y: y.to_bits(),
    };
    let spots = vec![spot(2, 500.0), spot(1, 400.0), spot(1, 50.0), spot(2, 300.0), spot(1, 300.0)];
    let texts: Vec<String> = ["b", "a", "12", "12", "c"].iter().map(|s| s.to_string()).collect();
    let single = |list: &Vec<usize>| list.iter().map(|&k| vec![k]).collect();
    assert_eq!(
        group_pages(&spots, &texts, single),
        vec![vec![1], vec![4], vec![0], vec![3]]
    );
    let whole = |list: &Vec<usize>| vec![list.clone()];
    assert_eq!(group_pages(&spots, &texts, whole), vec![vec![1, 4], vec![0, 3]]);
    assert!(group_pages(&vec![], &vec![], whole).is_empty());
}

/// A file with a compressed stream that holds one object, with the number 90.
fn with_object(object: &str) -> Vec<u8> {
    let mut doc = Document::with_version("1.5");
    let entries = dict(vec![
        ("Type", name("ObjStX")),
        ("N", Object::Integer(1)),
        ("First", Object::Integer(5)),
    ]);
    let mut stream = Stream::new(entries, format!("90 0 {}", object).into_bytes());
    stream.compress().unwrap();
    doc.add_object(stream);
    let mut bytes = Vec::new();
    doc.save_to(&mut bytes).unwrap();
    let at = bytes.windows(6).position(|w| w == b"ObjStX").unwrap();
    bytes[at + 5] = b'm';
    bytes
}

#[test]
fn compressed_objects_are_not_nested_too_deeply() {
    let file = |depth: usize| {
        let object = format!("{}{}{}", "[".repeat(depth), " ".repeat(500), "]".repeat(depth));
        with_object(&object)
    };
    assert!(load_document(&file(32)).unwrap().objects.contains_key(&(90, 0)));
    assert!(is_refused(&file(33)));
    assert!(is_refused(&file(100_000)));
}

/// A file with the given objects and a stream of offsets. An object number with a keeper is marked as
/// kept in that.
fn with_table(objects: &[(u32, &str)], kept: &[(u32, u32)], trailer: &str) -> Vec<u8> {
    let size = 20u32;
    let mut bytes = b"%PDF-1.5\n".to_vec();
    let mut fields = vec![(0u8, 0u32); size as usize];
    for (number, text) in objects {
        fields[*number as usize] = (1, bytes.len() as u32);
        bytes.extend(format!("{} 0 obj\n{}\nendobj\n", number, text).into_bytes());
    }
    for (number, keeper) in kept {
        fields[*number as usize] = (2, *keeper);
    }
    let start = bytes.len();
    let head = format!(
        "19 0 obj\n<</Type/XRef/W[1 4 0]/Size {}/Length {}{}>>\nstream\n",
        size,
        5 * size,
        trailer
    );
    bytes.extend(head.into_bytes());
    for (kind, value) in fields {
        bytes.push(kind);
        bytes.extend(value.to_be_bytes());
    }
    bytes.extend(format!("\nendstream\nendobj\nstartxref\n{}\n%%EOF\n", start).into_bytes());
    bytes
}

const HOLDER: &str = "<</Type/ObjStm/N 1/First 4/Length 6>>\nstream\n5 0 17\nendstream";

#[test]
fn lengths_may_be_kept_in_other_objects() {
    let page = "<</Length 5 0 R>>\nstream\n0123456789abcdefg\nendstream";
    let bytes = with_table(&[(4, HOLDER), (6, page)], &[(5, 4)], "");
    let doc = load_document(&bytes).unwrap();
    let stream = doc.get_object((6, 0)).unwrap().as_stream().unwrap();
    assert_eq!(stream.content.len(), 17);
}

#[test]
fn lengths_may_not_lead_back() {
    // The length of object 4 is kept in object 4.
    let own = "<</Type/ObjStm/N 1/First 4/Length 5 0 R>>\nstream\n5 0 6\nendstream";
    assert!(is_refused(&with_table(&[(4, own)], &[(5, 4)], "")));
    // Object 4 is kept in itself.
    assert!(is_refused(&with_table(&[(4, HOLDER)], &[(4, 4)], "")));
    // The length of object 4 is a stream.
    let other = "<</Length 4 0 R>>\nstream\nabc\nendstream";
    assert!(is_refused(&with_table(&[(4, other), (6, other)], &[], "")));
    // The length of object 6 is a number.
    let plain = "<</Length 7 0 R>>\nstream\nabc\nendstream";
    assert!(!is_refused(&with_table(&[(6, plain), (7, "3")], &[], "")));
}

#[test]
fn numbers_of_objects_are_read_whole() {
    // Object 15 is a dictionary, object 5 is none.
    let page = "<</Length 5 0 R>>\nstream\nabc\nendstream";
    let objects = [(15, "<</A 1>>"), (5, "3"), (6, page)];
    let bytes = with_table(&objects, &[], "");
    let doc = load_document(&bytes).unwrap();
    assert_eq!(doc.get_object((6, 0)).unwrap().as_stream().unwrap().content, b"abc");
    // An offset that leads to the second digit of the number of object 15, which starts at 9.
    let field = bytes.windows(5).position(|w| w == [1, 0, 0, 0, 9]).unwrap();
    let mut stray = bytes.clone();
    stray[field + 4] = 10;
    assert!(is_refused(&stray));
    let old = |offset: u32| {
        format!(
            "%PDF-1.4\n15 0 obj <</A 1>> endobj\nxref\n15 1\n{:010} 00000 n \ntrailer <</Size 16>>\n",
            offset
        )
    };
    assert!(!is_refused(old(9).as_bytes()) && is_refused(old(10).as_bytes()));
}

#[test]
fn encrypted_files_are_told_apart() {
    let bytes = with_table(&[(4, HOLDER)], &[], "/Encrypt 8 0 R");
    assert!(matches!(load_document(&bytes), Err(PdfError::Encrypted)));
    assert!(matches!(detect_pdf_type_mem(&bytes), Err(PdfError::Encrypted)));
    let old = b"%PDF-1.4\nxref\n0 1\n0000000000 65535 f \ntrailer <</Size 1/Encrypt 8 0 R>>\n";
    assert!(matches!(load_document(old), Err(PdfError::Encrypted)));
    // The name alone means nothing.
    let text = with_table(&[(4, "(/Encrypt)")], &[], "");
    assert!(load_document(&text).is_ok());
}

/// A file whose page tree has a page, and a node with the given entries.
fn with_node(entries: &str) -> Vec<u8> {
    with_table(
        &[
            (1, "<</Type/Catalog/Pages 2 0 R>>"),
            (2, "<</Type/Pages/Kids[3 0 R 4 0 R]/Count 7>>"),
            (3, "<</Type/Page/Parent 2 0 R>>"),
            (4, &format!("<</Type/Pages/Kids[]/Parent 2 0 R{}>>", entries)),
        ],
        &[],
        "/Root 1 0 R",
    )
}

#[test]
fn page_trees_may_not_claim_too_much() {
    let claims = |count: &str| detect_pdf_type_mem(&with_node(count));
    assert_eq!(claims("/Count 0").unwrap().page_count, 7);
    assert_eq!(claims("/Count 60000").unwrap().pages_sampled, 1);
    assert!(matches!(claims("/Count 9223372036854775807"), Err(PdfError::InvalidStructure)));
    let bytes = with_node("/Count 9223372036854775807");
    assert!(extract_pages_mem(&bytes, None, &no_glyphs(), no_gaps).is_err());
    assert!(extract_text_mem(&bytes).is_err());
}

#[test]
fn pages_are_counted_where_the_tree_does_not_tell() {
    // The root tells seven pages, of which one is there.
    assert_eq!(detect_pdf_type_mem(&with_node("/Count 0")).unwrap().page_count, 7);
    assert_eq!(detect_pdf_type_mem(&with_node("")).unwrap().page_count, 1);
    assert_eq!(detect_pdf_type_mem(&with_node("/Count -1")).unwrap().page_count, 1);
}
