use lopdf::{Dictionary, Document, Object};
use pdf_inspector::classify::detect_header_level;
use pdf_inspector::convert::{to_markdown_from_lines, Block, DocLine};
use pdf_inspector::detector::distribute_pages;
use pdf_inspector::layout::{group_single_column, merge_text_items, Link, Spot};
use pdf_inspector::markdown::{to_markdown, MarkdownOptions};
use pdf_inspector::ordering::sort_by_keys;
use pdf_inspector::preprocess::normalize_whitespace;
use pdf_inspector::reading::{place_items, ColumnSpan};
use pdf_inspector::tables::cluster_rects;
use pdf_inspector::text_utils::expand_ligatures;
use pdf_inspector::union_find::UnionFind;
use pdf_inspector::validation::validate_pdf_bytes;
use pdf_inspector::widths::{parse_font_widths, string_width_units};

fn spot(page: u32, x: f32, y: f32) -> Spot {
    Spot {
        page,
        x: x.to_bits(),
        y: y.to_bits(),
    }
}

#[test]
fn widths_of_strings_add_up() {
    let mut font = Dictionary::new();
    font.set("Subtype", Object::Name(b"Type1".to_vec()));
    font.set("FirstChar", Object::Integer(65));
    font.set("LastChar", Object::Integer(66));
    font.set(
        "Widths",
        Object::Array(vec![Object::Integer(500), Object::Integer(600)]),
    );
    let info = parse_font_widths(&Document::new(), &font).unwrap();
    let width = |s: &[u8]| string_width_units(s, &info);
    assert_eq!(width(b"ABBA"), width(b"AB") + width(b"BA"));
    assert_eq!(width(b"ABBA"), 2200);
}

#[test]
fn what_is_done_twice_changes_nothing() {
    let once = normalize_whitespace("  a \t b\n c ");
    assert_eq!(once, "a b c");
    assert_eq!(normalize_whitespace(&once), once);
    let once = expand_ligatures("of\u{FB01}ce \u{FB03}");
    assert_eq!(once, "office ffi");
    assert_eq!(expand_ligatures(&once), once);
}

#[test]
fn larger_headings_are_no_deeper() {
    let tiers = vec![2400, 1800, 1500];
    let mut last = 0;
    for size in (1440..3000).rev() {
        let level = detect_header_level(size, 1200, &tiers).unwrap();
        assert!((1..=4).contains(&level) && level >= last);
        last = level;
    }
}

#[test]
fn samples_hold_the_ends_in_order() {
    for total in 2..40 {
        for n in 2..=total {
            let pages = distribute_pages(n, total);
            assert_eq!(pages.len(), n as usize);
            assert_eq!((pages[0], pages[pages.len() - 1]), (1, total));
            assert!(pages.windows(2).all(|w| w[0] < w[1]));
        }
    }
}

#[test]
fn joined_pairs_are_components() {
    let pairs = vec![(0, 3), (4, 5), (3, 5)];
    let mut sets = UnionFind::new(7);
    for &(a, b) in &pairs {
        sets.union(a, b);
        assert_eq!(sets.find(a), sets.find(b));
    }
    let clusters = cluster_rects(7, &pairs, 1);
    let mut all: Vec<usize> = clusters.iter().flatten().copied().collect();
    all.sort();
    assert_eq!(all, (0..7).collect::<Vec<_>>());
    assert!(clusters.contains(&vec![0, 3, 4, 5]));
}

#[test]
fn nothing_is_lost_on_the_way_to_lines() {
    let spots: Vec<Spot> = (0..30)
        .map(|i| spot(1, (i * 7 % 30) as f32, (i * 11 % 13) as f32))
        .collect();
    let texts = vec!["x".to_string(); 30];
    let every = |lists: Vec<Vec<usize>>| {
        let mut all: Vec<usize> = lists.into_iter().flatten().collect();
        all.sort();
        assert_eq!(all, (0..30).collect::<Vec<_>>());
    };
    let near = |a: usize, b: usize| spots[a].y == spots[b].y;
    every(group_single_column(&spots, true, |first, _, k| near(first, k)));
    every(group_single_column(&spots, false, |first, _, k| near(first, k)));
    let merged = merge_text_items(&spots, &texts, near, |_, a, b| {
        if (a + b) % 2 == 0 {
            Link::Join
        } else {
            Link::Break
        }
    });
    every(merged.into_iter().flatten().map(|m| m.items).collect());
    let spans: Vec<ColumnSpan> = (0..30)
        .map(|i| ColumnSpan {
            reaches: vec![i % 3 == 0, i % 2 == 0],
            overlaps: vec![(i as f32).to_bits(), 12.0f32.to_bits()],
        })
        .collect();
    let (spanning, columns) = place_items(&spans, 2);
    let mut lists = columns;
    lists.push(spanning);
    every(lists);
    let keys: Vec<(i64, i64)> = (0..30).map(|i| (-(i % 4), i % 3)).collect();
    let order = sort_by_keys(&(0..30).collect(), &keys);
    assert!(order.windows(2).all(|w| keys[w[0]] <= keys[w[1]]));
    every(vec![order]);
}

#[test]
fn nothing_is_lost_on_the_way_to_markdown() {
    let text = "Title\n\n\u{2022} item\nlet x = 5;\n  plain  \n1. one";
    let md = to_markdown(text, MarkdownOptions::default());
    for part in ["Title", "- item", "let x = 5;", "plain", "1. one"] {
        assert!(md.contains(part));
    }
    assert!(md.ends_with('\n'));
    assert_eq!(md.matches("```").count(), 2);
    let lines: Vec<DocLine> = ["Title", "\u{2022} item", "let x = 5;", "plain"]
        .iter()
        .enumerate()
        .map(|(i, t)| DocLine {
            spot: spot(i as u32, 0.0, 700.0),
            size: if i == 0 { 2400 } else { 1200 },
            is_mono: false,
            text: t.to_string(),
        })
        .collect();
    let blocks = vec![Block {
        spot: spot(2, 0.0, 900.0),
        markdown: "| a |".to_string(),
    }];
    let options = MarkdownOptions::default();
    let md = to_markdown_from_lines(&lines, &blocks, 1200, &vec![2400], &options);
    for part in ["# Title", "- item", "let x = 5;", "plain", "| a |"] {
        assert!(md.contains(part));
    }
    assert!(md.ends_with('\n'));
    assert_eq!(md.matches("```").count(), 2);
}

#[test]
fn blanks_before_the_header_are_ignored() {
    assert!(validate_pdf_bytes(b"").is_err());
    assert!(validate_pdf_bytes(b"%PDF-1.7").is_ok());
    assert!(validate_pdf_bytes(b" \r\n\t%PDF-1.7").is_ok());
}
