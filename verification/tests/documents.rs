use lopdf::{Dictionary, Document, Object, ObjectId, Stream};
use pdf_inspector::PdfError;
use pdf_inspector::content::{
    form_font_widths, form_steps, page_font_widths, page_steps, Piece, Run, Step,
};
use pdf_inspector::encodings::{build_font_encodings, GlyphNames};
use pdf_inspector::font_cmaps::FontCMaps;
use pdf_inspector::numbers::{real_to_u16, to_u16, to_u8, Number};
use pdf_inspector::process::extract_text_from_doc;
use pdf_inspector::resources::{extract_page_links, get_page_xobjects, XObjectType};
use pdf_inspector::widths::{parse_font_widths, string_width_units, SpaceWidth, UnitsScale};

fn dict(entries: Vec<(&str, Object)>) -> Dictionary {
    let mut d = Dictionary::new();
    for (k, v) in entries {
        d.set(k, v);
    }
    d
}

fn name(s: &str) -> Object {
    Object::Name(s.as_bytes().to_vec())
}

fn integer(i: i64) -> Object {
    Object::Integer(i)
}

fn text(s: &str) -> Object {
    Object::string_literal(s)
}

fn array(items: Vec<Object>) -> Object {
    Object::Array(items)
}

fn nested(d: Dictionary) -> Object {
    Object::Dictionary(d)
}

/// A document with one page that has the given content and resources.
fn page(content: &str, resources: Dictionary) -> (Document, ObjectId) {
    let mut doc = Document::with_version("1.5");
    add_page(&mut doc, content, resources)
}

fn add_page(doc: &mut Document, content: &str, resources: Dictionary) -> (Document, ObjectId) {
    let pages_id = doc.new_object_id();
    let content_id = doc.add_object(Stream::new(Dictionary::new(), content.as_bytes().to_vec()));
    let page_id = doc.add_object(dict(vec![
        ("Type", name("Page")),
        ("Parent", Object::Reference(pages_id)),
        ("Contents", Object::Reference(content_id)),
        ("Resources", nested(resources)),
    ]));
    doc.objects.insert(
        pages_id,
        nested(dict(vec![
            ("Type", name("Pages")),
            ("Kids", array(vec![Object::Reference(page_id)])),
            ("Count", integer(1)),
        ])),
    );
    let catalog = doc.add_object(dict(vec![
        ("Type", name("Catalog")),
        ("Pages", Object::Reference(pages_id)),
    ]));
    doc.trailer.set("Root", Object::Reference(catalog));
    (doc.clone(), page_id)
}

/// A bold font with widths for `A` to `C`.
fn simple_font() -> Dictionary {
    dict(vec![
        ("Type", name("Font")),
        ("Subtype", name("Type1")),
        ("BaseFont", name("Test-Bold")),
        ("Encoding", name("WinAnsiEncoding")),
        ("FirstChar", integer(65)),
        ("LastChar", integer(67)),
        ("Widths", array(vec![integer(500), Object::Real(600.9), integer(700)])),
    ])
}

fn with_font(font: Dictionary) -> Dictionary {
    dict(vec![("Font", nested(dict(vec![("F1", nested(font))])))])
}

fn no_glyphs() -> GlyphNames {
    GlyphNames { names: vec![] }
}

fn chars(s: &str) -> Vec<char> {
    s.chars().collect()
}

fn steps_of(content: &str, resources: Dictionary) -> Vec<Step> {
    let (doc, id) = page(content, resources);
    page_steps(&doc, id, &FontCMaps::from_doc(&doc), &no_glyphs(), &vec![]).unwrap()
}

fn shown(step: &Step) -> Option<&str> {
    match step {
        Step::Show(s, _) => Some(&s.text),
        _ => None,
    }
}

#[test]
fn numbers_wrap_and_real_numbers_are_cut_off() {
    assert_eq!((to_u16(70000), to_u16(-1)), (4464, 65535));
    assert_eq!((to_u8(256), to_u8(-1), to_u8(300)), (0, 255, 44));
    assert_eq!(real_to_u16(600.9f32.to_bits()), 600);
    assert_eq!(real_to_u16(0.99f32.to_bits()), 0);
    assert_eq!(real_to_u16((-3.0f32).to_bits()), 0);
    assert_eq!(real_to_u16(65535.9f32.to_bits()), 65535);
    assert_eq!(real_to_u16(1e9f32.to_bits()), 65535);
    assert_eq!(real_to_u16(f32::NAN.to_bits()), 0);
    assert_eq!(real_to_u16(f32::INFINITY.to_bits()), 65535);
    for i in 0..2000u32 {
        let x = i as f32 * 33.37;
        assert_eq!(real_to_u16(x.to_bits()), x as u16);
    }
}

#[test]
fn real_numbers_are_compared_by_their_bits() {
    let real = |x: f32| Number::Real(x.to_bits());
    assert!(real(0.96).about_one() && !real(0.95).about_one() && !real(-2.0).about_one());
    assert!(Number::Integer(1).about_one() && !Number::Integer(0).about_one());
    assert!(real(0.049).about_zero() && real(-1.0).about_zero() && !real(0.05).about_zero());
    assert!(!real(f32::NAN).about_zero() && !real(f32::NAN).about_one());
    assert!(real(3.5).three() && !real(4.0).three() && !real(2.99).three());
    let limit = 120.5f32.to_bits();
    assert!(Number::Integer(-121).below_minus(limit));
    assert!(!Number::Integer(-120).below_minus(limit));
    assert!(!Number::Integer(500).below_minus(limit));
    assert!(real(-120.6).below_minus(limit) && !real(-120.5).below_minus(limit));
    assert!(!real(200.0).below_minus(limit));
    assert!(Number::Integer(i64::MIN).below_minus(1e18f32.to_bits()));
    assert!(!Number::Integer(i64::MIN).below_minus(1e20f32.to_bits()));
}

#[test]
fn simple_widths_are_read() {
    let doc = Document::new();
    let info = parse_font_widths(&doc, &simple_font()).unwrap();
    assert_eq!(info.widths.get(&65), Some(&500));
    assert_eq!(info.widths.get(&66), Some(&600));
    assert_eq!(info.widths.len(), 3);
    assert_eq!(info.space_width, SpaceWidth::Units(250));
    assert_eq!(info.units_scale, UnitsScale::Thousandth);
    assert!(!info.is_cid);
    assert_eq!(string_width_units(b"ABz", &info), 1100);
    // Without the range of codes there are no widths.
    let mut font = simple_font();
    font.remove(b"FirstChar");
    assert!(parse_font_widths(&doc, &font).is_none());
    // Other kinds of font have none.
    let mut font = simple_font();
    font.set("Subtype", name("Other"));
    assert!(parse_font_widths(&doc, &font).is_none());
}

#[test]
fn widths_end_at_the_last_code() {
    let doc = Document::new();
    let mut font = simple_font();
    font.set("LastChar", integer(65));
    assert_eq!(parse_font_widths(&doc, &font).unwrap().widths.len(), 1);
    font.set("FirstChar", integer(65535));
    font.set("LastChar", integer(65535));
    assert_eq!(
        parse_font_widths(&doc, &font).unwrap().widths.get(&65535),
        Some(&500)
    );
}

#[test]
fn the_space_of_a_scaled_font_is_estimated() {
    let doc = Document::new();
    let mut font = simple_font();
    font.set("Subtype", name("Type3"));
    font.set("FontMatrix", array(vec![Object::Real(0.01)]));
    let info = parse_font_widths(&doc, &font).unwrap();
    assert_eq!(info.space_width, SpaceWidth::OfAverage(1800, 3));
    assert_eq!(info.units_scale, UnitsScale::Real(0.01f32.to_bits()));
    font.set("FontMatrix", array(vec![Object::Real(0.0005)]));
    let info = parse_font_widths(&doc, &font).unwrap();
    assert_eq!(info.space_width, SpaceWidth::Units(250));
    font.set("FirstChar", integer(32));
    font.set("LastChar", integer(33));
    let info = parse_font_widths(&doc, &font).unwrap();
    assert_eq!(info.space_width, SpaceWidth::Units(500));
}

#[test]
fn composite_widths_are_read() {
    let doc = Document::new();
    let list = array(vec![
        integer(10),
        array(vec![integer(100), name("x"), integer(300)]),
        integer(20),
        integer(22),
        Object::Real(400.5),
        name("stray"),
        integer(65534),
        array(vec![integer(1), integer(2), integer(3)]),
        integer(3),
    ]);
    let cid = dict(vec![("DW", integer(800)), ("W", list)]);
    let font = dict(vec![
        ("Subtype", name("Type0")),
        ("DescendantFonts", array(vec![nested(cid)])),
        ("WMode", integer(1)),
    ]);
    let info = parse_font_widths(&doc, &font).unwrap();
    assert_eq!(info.widths.get(&10), Some(&100));
    assert_eq!(info.widths.get(&11), None);
    assert_eq!(info.widths.get(&12), Some(&300));
    assert_eq!(info.widths.get(&21), Some(&400));
    assert_eq!(info.widths.get(&65535), Some(&2));
    assert_eq!(info.widths.len(), 7);
    assert_eq!(info.space_width, SpaceWidth::Units(200));
    assert_eq!((info.is_cid, info.wmode, info.default_width), (true, 1, 800));
    assert_eq!(string_width_units(&[0, 10, 0, 99, 7], &info), 900);
}

#[test]
fn encodings_name_their_glyphs() {
    let doc = Document::new();
    let glyphs = GlyphNames {
        names: vec![(chars("alpha"), '\u{3B1}'), (chars("fi"), '\u{FB01}')],
    };
    let differences = array(vec![
        integer(255),
        name("alpha"),
        name("fi"),
        name("unknown"),
        name("alpha"),
    ]);
    let encoding = dict(vec![("Differences", differences)]);
    let font = dict(vec![("Encoding", nested(encoding))]);
    let list = vec![(b"F1".to_vec(), &font)];
    let encodings = build_font_encodings(&doc, &list, &glyphs);
    assert_eq!(encodings.len(), 1);
    assert_eq!(encodings[0].0, chars("F1"));
    let map = &encodings[0].1;
    assert_eq!(map.get(&255), Some(&'\u{3B1}'));
    assert_eq!(map.get(&0), Some(&'\u{FB01}'));
    assert_eq!(map.get(&1), None);
    assert_eq!(map.get(&2), Some(&'\u{3B1}'));
    // A standard encoding gives no map.
    let font = simple_font();
    let list = vec![(b"F1".to_vec(), &font)];
    assert!(build_font_encodings(&doc, &list, &glyphs).is_empty());
}

#[test]
fn text_is_shown_with_its_width_and_style() {
    let steps = steps_of("BT /F1 12 Tf 1 0 0 1 50 700 Tm (AB) Tj ET", with_font(simple_font()));
    assert!(matches!(steps[0], Step::ResetText));
    assert!(matches!(steps[1], Step::FontSize(Number::Integer(12))));
    assert!(matches!(steps[2], Step::SetMatrix(m) if m.e == Number::Integer(50)));
    match &steps[3] {
        Step::Show(s, run) => {
            assert_eq!((s.text.as_str(), s.font.as_str()), ("AB", "F1"));
            assert!(s.is_bold && !s.is_italic);
            assert_eq!(
                *run,
                Some(Run {
                    units: 1100,
                    scale: UnitsScale::Thousandth
                })
            );
        }
        other => panic!("{:?}", other),
    }
    assert_eq!(steps.len(), 4);
}

#[test]
fn hidden_text_only_advances() {
    let font = with_font(simple_font());
    let white = steps_of("1 g BT /F1 12 Tf (AB) Tj ET", font.clone());
    assert!(white.iter().all(|s| shown(s).is_none()));
    assert!(matches!(white[2], Step::Advance(r) if r.units == 1100));
    let hidden = steps_of("BT /F1 12 Tf 3 Tr (AB) Tj ET", font.clone());
    assert!(matches!(hidden[2], Step::Advance(_)));
    // The rendering mode ends with the text block, the colour does not.
    let again = steps_of("BT /F1 12 Tf 3 Tr ET BT (A) Tj ET", font.clone());
    assert_eq!(again.iter().filter_map(shown).collect::<Vec<_>>(), vec!["A"]);
    // To restore the state brings the colour back.
    let restored = steps_of("BT /F1 12 Tf ET q 1 1 1 rg Q BT (B) Tj ET", font.clone());
    assert_eq!(restored.iter().filter_map(shown).collect::<Vec<_>>(), vec!["B"]);
    // Outside a text block nothing is shown, but for the quote.
    let outside = steps_of("/F1 12 Tf (A) Tj (B) '", font.clone());
    assert_eq!(outside.iter().filter_map(shown).collect::<Vec<_>>(), vec!["B"]);
    // Blank text advances only.
    let blank = steps_of("BT /F1 12 Tf ( ) Tj ET", font);
    assert!(matches!(blank[2], Step::Advance(_)));
}

#[test]
fn rows_are_cut_at_wide_gaps() {
    let steps = steps_of(
        "BT /F1 12 Tf [(A) -100 (B) -130 (C) -600 (A) 20] TJ ET",
        with_font(simple_font()),
    );
    match &steps[2] {
        Step::ShowRow(pieces, segments, measured) => {
            assert!(measured);
            assert_eq!(pieces.len(), 8);
            assert_eq!(pieces[1], Piece::Displacement(Number::Integer(-100)));
            assert!(matches!(pieces[0], Piece::Run(r) if r.units == 500));
            let texts: Vec<(&str, usize, usize)> = segments
                .iter()
                .map(|s| (s.shown.text.as_str(), s.start, s.end))
                .collect();
            assert_eq!(texts, vec![("AB C", 0, 5), ("A", 6, 8)]);
        }
        other => panic!("{:?}", other),
    }
}

#[test]
fn gaps_are_given_by_font() {
    let (doc, id) = page(
        "BT /F1 12 Tf [(A) -100 (B)] TJ ET",
        with_font(simple_font()),
    );
    let cmaps = FontCMaps::from_doc(&doc);
    let gaps = vec![(chars("F1"), (80.0f32.to_bits(), 320.0f32.to_bits()))];
    let steps = page_steps(&doc, id, &cmaps, &no_glyphs(), &gaps).unwrap();
    match &steps[2] {
        Step::ShowRow(_, segments, _) => assert_eq!(segments[0].shown.text, "A B"),
        other => panic!("{:?}", other),
    }
}

#[test]
fn marked_content_is_replaced() {
    let steps = steps_of(
        "BT /F1 12 Tf /Span << /ActualText (whole) >> BDC (A) Tj EMC /P BMC (B) Tj EMC EMC ET",
        with_font(simple_font()),
    );
    let kinds: Vec<String> = steps
        .iter()
        .map(|s| match s {
            Step::MarkStart => "start".to_string(),
            Step::MarkEnd(Some(t)) => format!("end {}", t.text),
            Step::Advance(_) => "advance".to_string(),
            Step::Show(t, _) => format!("show {}", t.text),
            _ => "other".to_string(),
        })
        .collect();
    assert_eq!(
        kinds,
        vec!["other", "other", "start", "advance", "end whole", "show B"]
    );
}

#[test]
fn tables_come_before_other_encodings() {
    let mut doc = Document::with_version("1.5");
    let cmap = b"1 beginbfchar\n<41> <0078>\nendbfchar".to_vec();
    let cmap_id = doc.add_object(Stream::new(
        dict(vec![("Filter", array(vec![]))]),
        cmap,
    ));
    let mut font = simple_font();
    font.set("ToUnicode", Object::Reference(cmap_id));
    let (doc, id) = add_page(&mut doc, "BT /F1 12 Tf (A) Tj (B) Tj ET", with_font(font));
    let cmaps = FontCMaps::from_doc(&doc);
    // Without filters the stream is empty once they are undone, so there is no table.
    assert!(cmaps.get_by_obj(cmap_id.0).is_none());
    let steps = page_steps(&doc, id, &cmaps, &no_glyphs(), &vec![]).unwrap();
    assert_eq!(steps.iter().filter_map(shown).collect::<Vec<_>>(), vec!["A", "B"]);
}

#[test]
fn compressed_tables_are_used() {
    let mut doc = Document::with_version("1.5");
    let cmap = b"1 beginbfchar\n<41> <0078>\nendbfchar padding padding padding padding".repeat(4);
    let mut stream = Stream::new(Dictionary::new(), cmap);
    stream.compress().unwrap();
    let cmap_id = doc.add_object(stream);
    let mut font = simple_font();
    font.set("ToUnicode", Object::Reference(cmap_id));
    let (doc, id) = add_page(&mut doc, "BT /F1 12 Tf (A) Tj (B) Tj ET", with_font(font));
    let cmaps = FontCMaps::from_doc(&doc);
    assert_eq!(
        cmaps.get_by_obj(cmap_id.0).unwrap().lookup(0x41),
        Some("x".to_string())
    );
    assert!(cmaps.get_by_obj(cmap_id.0 + 100).is_none());
    let steps = page_steps(&doc, id, &cmaps, &no_glyphs(), &vec![]).unwrap();
    // `B` is unmapped, so the encoding of the font decides.
    assert_eq!(steps.iter().filter_map(shown).collect::<Vec<_>>(), vec!["x", "B"]);
}

#[test]
fn differences_are_combined_with_plain_codes() {
    let glyphs = GlyphNames {
        names: vec![(chars("alpha"), '\u{3B1}')],
    };
    let mut font = simple_font();
    let differences = array(vec![integer(65), name("alpha")]);
    font.set("Encoding", nested(dict(vec![("Differences", differences)])));
    let (doc, id) = page("BT /F1 12 Tf (A!) Tj ET", with_font(font));
    let steps = page_steps(&doc, id, &FontCMaps::from_doc(&doc), &glyphs, &vec![]).unwrap();
    assert_eq!(steps.iter().filter_map(shown).collect::<Vec<_>>(), vec!["\u{3B1}!"]);
}

#[test]
fn broken_content_is_an_error() {
    let (doc, id) = page("BI /W 1 ID", Dictionary::new());
    assert!(page_steps(&doc, id, &FontCMaps::default(), &no_glyphs(), &vec![]).is_err());
}

#[test]
fn forms_are_shown_in_their_own_fonts() {
    let mut doc = Document::with_version("1.5");
    let font_id = doc.add_object(simple_font());
    let form_resources = dict(vec![(
        "Font",
        nested(dict(vec![("G1", Object::Reference(font_id))])),
    )]);
    let mut form = Stream::new(
        dict(vec![
            ("Subtype", name("Form")),
            ("Resources", nested(form_resources)),
        ]),
        b"BT /G1 x Tf 5 6 Td (AC) Tj ET q /Fm0 Do Q          ".repeat(3),
    );
    form.compress().unwrap();
    let form_id = doc.add_object(form);
    let image_id = doc.add_object(Stream::new(dict(vec![("Subtype", name("Image"))]), vec![]));
    let xobjects = dict(vec![
        ("Fm0", Object::Reference(form_id)),
        ("Im0", Object::Reference(image_id)),
        ("Direct", integer(1)),
    ]);
    let resources = dict(vec![("XObject", nested(xobjects))]);
    let (doc, id) = add_page(&mut doc, "/Im0 Do /Fm0 Do /None Do", resources);
    assert_eq!(
        get_page_xobjects(&doc, id),
        vec![
            (chars("Fm0"), XObjectType::Form(form_id)),
            (chars("Im0"), XObjectType::Image)
        ]
    );
    let cmaps = FontCMaps::from_doc(&doc);
    let steps = page_steps(&doc, id, &cmaps, &no_glyphs(), &vec![]).unwrap();
    assert_eq!(steps.len(), 1);
    assert!(matches!(steps[0], Step::Form(f) if f == form_id));
    assert_eq!(form_font_widths(&doc, form_id).len(), 1);
    assert!(page_font_widths(&doc, id).is_empty());
    let inner = form_steps(&doc, form_id, &cmaps, &no_glyphs(), &vec![]).unwrap();
    assert!(inner.iter().all(|s| !matches!(s, Step::Form(_) | Step::Save)));
    assert!(matches!(inner[0], Step::ResetText));
    assert!(matches!(inner[1], Step::MoveText(Number::Integer(5), Number::Integer(6))));
    assert_eq!(inner.iter().filter_map(shown).count(), 3);
    assert!(form_steps(&doc, (999, 0), &cmaps, &no_glyphs(), &vec![]).is_none());
}

#[test]
fn tables_are_found_in_forms_within_forms() {
    let mut doc = Document::with_version("1.5");
    let cmap = b"1 beginbfchar\n<41> <0078>\nendbfchar padding padding padding padding".repeat(4);
    let mut stream = Stream::new(Dictionary::new(), cmap);
    stream.compress().unwrap();
    let cmap_id = doc.add_object(stream);
    let mut font = simple_font();
    font.set("ToUnicode", Object::Reference(cmap_id));
    let inner_id = doc.new_object_id();
    let outer_id = doc.new_object_id();
    let inner_resources = dict(vec![
        ("Font", nested(dict(vec![("G", nested(font))]))),
        // The forms refer to each other.
        ("XObject", nested(dict(vec![("O", Object::Reference(outer_id))]))),
    ]);
    let outer_resources = dict(vec![(
        "XObject",
        nested(dict(vec![("I", Object::Reference(inner_id))])),
    )]);
    for (id, resources) in [(inner_id, inner_resources), (outer_id, outer_resources)] {
        let form = dict(vec![
            ("Subtype", name("Form")),
            ("Resources", nested(resources)),
        ]);
        doc.objects.insert(id, Object::Stream(Stream::new(form, vec![])));
    }
    let resources = dict(vec![(
        "XObject",
        nested(dict(vec![("O", Object::Reference(outer_id))])),
    )]);
    let (doc, _) = add_page(&mut doc, "", resources);
    assert!(FontCMaps::from_doc(&doc).get_by_obj(cmap_id.0).is_some());
}

#[test]
fn links_need_an_area_and_an_address() {
    let (mut doc, id) = page("", Dictionary::new());
    let link = |kind: &str, uri: Option<&str>, rect: Vec<Object>| {
        let mut action = dict(vec![("S", name("URI"))]);
        if let Some(u) = uri {
            action.set("URI", text(u));
        }
        dict(vec![
            ("Subtype", name(kind)),
            ("Rect", array(rect)),
            ("A", nested(action)),
        ])
    };
    let area = || vec![integer(1), Object::Real(2.5), integer(11), name("x")];
    let stored = doc.add_object(link("Link", Some("http://a"), area()));
    let annotations = array(vec![
        Object::Reference(stored),
        nested(link("Text", Some("http://b"), area())),
        nested(link("Link", None, area())),
        nested(link("Link", Some("http://c"), vec![integer(1)])),
        nested(link("Link", Some("http://d"), area())),
    ]);
    doc.get_dictionary_mut(id).unwrap().set("Annots", annotations);
    let links = extract_page_links(&doc, id);
    let urls: Vec<&str> = links.iter().map(|l| l.url.as_str()).collect();
    assert_eq!(urls, vec!["http://a", "http://d"]);
    assert_eq!(links[0].x1, Number::Integer(1));
    assert_eq!(links[0].y1, Number::Real(2.5f32.to_bits()));
    assert_eq!(links[0].y2, Number::Integer(0));
}

#[test]
fn references_are_followed() {
    let mut doc = Document::with_version("1.5");
    let list = doc.add_object(array(vec![integer(500), integer(600)]));
    let second = doc.add_object(Object::Reference(list));
    let first_char = doc.add_object(integer(70));
    let mut font = simple_font();
    font.set("Widths", Object::Reference(second));
    font.set("FirstChar", Object::Reference(first_char));
    font.set("LastChar", integer(80));
    let info = parse_font_widths(&doc, &font).unwrap();
    assert_eq!(info.widths.get(&70), Some(&500));
    assert_eq!(info.widths.get(&71), Some(&600));
    // A reference to itself leads nowhere.
    let lost = doc.new_object_id();
    doc.objects.insert(lost, Object::Reference(lost));
    font.set("Widths", Object::Reference(lost));
    assert!(parse_font_widths(&doc, &font).is_none());
}

#[test]
fn inline_images_need_a_color_space() {
    let font = || with_font(simple_font());
    let shows = |content: &str| -> bool {
        let (doc, id) = page(content, font());
        let cmaps = FontCMaps::from_doc(&doc);
        match page_steps(&doc, id, &cmaps, &no_glyphs(), &vec![]) {
            Ok(steps) => steps.iter().any(|s| shown(s) == Some("A")),
            Err(e) => {
                assert!(matches!(e, PdfError::Parse(_)));
                false
            }
        }
    };
    let text = "BT /F1 12 Tf (A) Tj ET";
    assert!(shows(&format!("BI /W 1 /H 1 /BPC 8 /CS /G ID x EI {}", text)) == false);
    assert!(shows(&format!("BI /W 1 /H 1 /BPC 8 /CS /Gray ID x EI {}", text)));
    assert!(shows(&format!("BI /W 8 /H 1 /BPC 1 /IM true /D [1 0] ID x EI {}", text)));
    // No colour space, or a mask that is none.
    assert!(!shows(&format!("BI /W 1 /H 1 /BPC 8 ID x EI {}", text)));
    assert!(!shows(&format!("BI /W 1 /H 1 /BPC 8 /IM false ID x EI {}", text)));
    assert!(!shows(&format!("BI /W 1 /H 1 /BPC 8 /X 8 0 R ID x EI {}", text)));
    // The letters alone are no image, nor is what stands in a string, a name or a comment.
    assert!(shows(&format!("BT /F1 12 Tf (BIG ID) Tj ET {}", text)));
    assert!(shows(&format!("BT /F1 12 Tf (BI/X) Tj ET {}", text)));
    assert!(shows(&format!("BT (BI /W 1 /H 1 /BPC 8 ID x EI) Tj ET {}", text)));
    assert!(shows(&format!("%BI /W 1 /H 1 /BPC 8 ID x EI\n{}", text)));
    // Comments, and long numbers that are no sizes, do no harm.
    assert!(shows(&format!("BI /W 1 % one\n /H 1 /BPC 8 /CS /Gray ID x EI {}", text)));
    assert!(shows(&format!("BI /W 1 /H 1 /BPC 8 /CS /Gray /L 123456789 ID x EI {}", text)));
    assert!(shows(&format!("BI /W 123456 /H 0 /BPC 8 /CS /Gray ID EI {}", text)));
    assert!(!shows(&format!("BI /W 123456789 /H 0 /BPC 8 /CS /Gray ID  EI {}", text)));
}

#[test]
fn operands_are_not_nested_too_deeply() {
    let ends = |depth: usize| -> bool {
        let row = format!("{}{} TJ", "[".repeat(depth), "]".repeat(depth));
        let (doc, id) = page(&row, Dictionary::new());
        page_steps(&doc, id, &FontCMaps::default(), &no_glyphs(), &vec![]).is_ok()
    };
    assert!(ends(1) && ends(32));
    assert!(!ends(33) && !ends(100_000));
}

#[test]
fn strings_in_nested_operands_may_hold_brackets() {
    let text = format!("{}a{}", "(".repeat(100), ")".repeat(100));
    let row = format!("{}{}{} TJ", "[".repeat(32), text, "]".repeat(32));
    let (doc, id) = page(&row, Dictionary::new());
    assert!(page_steps(&doc, id, &FontCMaps::default(), &no_glyphs(), &vec![]).is_ok());
}

#[test]
fn pages_may_not_be_too_far_from_the_root() {
    let deep = |parents: usize| -> bool {
        let (mut doc, id) = page("BT /F1 12 Tf (A) Tj ET", Dictionary::new());
        let fonts = with_font(simple_font());
        let mut parent = doc.add_object(dict(vec![("Resources", nested(Dictionary::new()))]));
        for _ in 1..parents {
            parent = doc.add_object(dict(vec![("Parent", Object::Reference(parent))]));
        }
        let own = doc.get_object_mut(id).unwrap().as_dict_mut().unwrap();
        own.set("Parent", Object::Reference(parent));
        own.set("Resources", nested(fonts));
        !page_font_widths(&doc, id).is_empty()
    };
    assert!(deep(1) && deep(1000));
    assert!(!deep(1001) && !deep(50_000));
}

/// A font whose ToUnicode stream holds the given ranges.
fn font_with_ranges(doc: &mut Document, ranges: &str) -> Dictionary {
    let cmap = format!(
        "/CIDInit /ProcSet findresource begin\n12 dict begin\nbegincmap\n\
         /CMapName /X def\n/CMapType 2 def\n1 begincodespacerange\n<00> <FF>\n\
         endcodespacerange\n1 beginbfrange\n{}\nendbfrange\nendcmap\n\
         CMapName currentdict /CMap defineresource pop\nend\nend\n",
        ranges
    );
    let id = doc.add_object(Stream::new(Dictionary::new(), cmap.into_bytes()));
    dict(vec![
        ("Type", name("Font")),
        ("Subtype", name("Type1")),
        ("BaseFont", name("X")),
        ("ToUnicode", Object::Reference(id)),
    ])
}

fn text_with_ranges(ranges: &str) -> Result<String, PdfError> {
    text_in_ranges(ranges, "(BA) Tj")
}

fn text_in_ranges(ranges: &str, shown: &str) -> Result<String, PdfError> {
    let mut doc = Document::with_version("1.5");
    let font = font_with_ranges(&mut doc, ranges);
    let content = format!("BT /F1 12 Tf {} ET", shown);
    let (doc, _) = add_page(&mut doc, &content, with_font(font));
    extract_text_from_doc(&doc)
}

#[test]
fn tables_of_ranges_have_to_be_full() {
    assert_eq!(text_with_ranges("<41> <42> [<0078> <0079>]").unwrap(), "yx\n");
    assert_eq!(text_with_ranges("<41> <42> <0078>").unwrap(), "yx\n");
    // The third code of the range has no entry.
    let short = "<41> <43> [<0078> <0079>]";
    assert_eq!(text_with_ranges(short).unwrap(), "yx\n");
    assert!(matches!(text_in_ranges(short, "(AC) Tj"), Err(PdfError::Parse(_))));
    assert!(matches!(text_in_ranges(short, "[(A) 5 (C)] TJ"), Err(PdfError::Parse(_))));
    assert_eq!(text_in_ranges(short, "[(A) 5 (D)] TJ").unwrap(), "x\u{FFFD} \n");
    // Ranges that meet and have the same table, and ranges that do not meet.
    assert!(matches!(
        text_with_ranges("<41> <42> [<0078> <0079>]\n<43> <44> [<0078> <0079> ]"),
        Err(PdfError::Parse(_))
    ));
    assert_eq!(
        text_with_ranges("<41> <42> [<0078> <0079>]\n<44> <45> [<0078> <0079> ]").unwrap(),
        "yx\n"
    );
    // A text of several units is counted up in its last unit.
    assert_eq!(text_with_ranges("<41> <42> <00660069>").unwrap(), "fjfi\n");
    assert!(matches!(text_with_ranges("<41> <42> <0041FFFF>"), Err(PdfError::Parse(_))));
    assert!(text_with_ranges("<41> <42> <0041FFFE>").is_ok());
    // All codes of four bytes, and a few of them.
    assert!(text_with_ranges("<00000000> <FFFFFFFF> <0041>").is_err());
    assert!(text_with_ranges("<00010000> <00010002> <0041>").is_ok());
}

#[test]
fn named_encodings_need_no_table() {
    let mut doc = Document::with_version("1.5");
    let mut font = font_with_ranges(&mut doc, "<41> <43> [<0078> <0079>]");
    font.set("Encoding", name("WinAnsiEncoding"));
    let (doc, _) = add_page(&mut doc, "BT /F1 12 Tf (BA) Tj ET", with_font(font));
    assert_eq!(extract_text_from_doc(&doc).unwrap(), "BA\n");
}

#[test]
fn short_tables_are_not_used() {
    let mut doc = Document::with_version("1.5");
    let font = font_with_ranges(&mut doc, "<41> <43> [<0078> <0079>]");
    let (doc, id) = add_page(&mut doc, "BT /F1 12 Tf (C) Tj ET", with_font(font));
    let cmaps = FontCMaps::from_doc(&doc);
    let steps = page_steps(&doc, id, &cmaps, &no_glyphs(), &vec![]).unwrap();
    assert_eq!(steps.iter().filter_map(shown).collect::<Vec<_>>(), vec!["C"]);
}

#[test]
fn filters_that_overflow_are_not_undone() {
    let filtered = |filter: &str, params: Dictionary, content: &str| -> Option<Vec<Step>> {
        let mut doc = Document::with_version("1.5");
        let form = dict(vec![
            ("Subtype", name("Form")),
            ("Filter", name(filter)),
            ("DecodeParms", nested(params)),
        ]);
        let id = doc.add_object(Stream::new(form, content.as_bytes().to_vec()));
        form_steps(&doc, id, &FontCMaps::default(), &no_glyphs(), &vec![])
    };
    // `BT ET` as ASCII85, and a group that is too large.
    assert_eq!(filtered("ASCII85Decode", Dictionary::new(), "6<#'r;u~>").unwrap().len(), 1);
    assert!(filtered("ASCII85Decode", Dictionary::new(), "s8W-\"~>").is_none());
    let huge = dict(vec![
        ("Predictor", integer(12)),
        ("Columns", integer(i64::MAX)),
        ("Colors", integer(4)),
    ]);
    assert!(filtered("FlateDecode", huge, "").is_none());
}

#[test]
fn filters_are_undone_one_behind_the_other() {
    let steps = |text: &str| -> Option<usize> {
        let mut stream = Stream::new(Dictionary::new(), text.as_bytes().to_vec());
        stream.compress().unwrap();
        let mut form = Stream::new(dict(vec![("Subtype", name("Form"))]), stream.content.clone());
        form.dict.set("Filter", array(vec![name("FlateDecode"), name("ASCII85Decode")]));
        let mut doc = Document::with_version("1.5");
        let id = doc.add_object(form);
        form_steps(&doc, id, &FontCMaps::default(), &no_glyphs(), &vec![]).map(|s| s.len())
    };
    // `BT ET` as ASCII85, with room to be compressed.
    assert_eq!(steps(&format!("6<#'r;u{}~>", " ".repeat(200))), Some(1));
    assert_eq!(steps(&format!("s8W-\"{}~>", " ".repeat(200))), None);
}
