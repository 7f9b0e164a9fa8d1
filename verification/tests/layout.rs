use pdf_inspector::classify::is_monospace_font;
use pdf_inspector::convert::{
    gather_blocks, heading_tiers, most_common_size, to_markdown_from_lines, Block, DocLine,
    PageTable,
};
use pdf_inspector::layout::{
    arrange_newspaper, build_histogram, detect_columns, find_run, find_valleys, group_by_height,
    group_single_column, is_newspaper_layout, is_page_number, join_linked, merge_text_items,
    select_gutters, should_use_y_sorting, sort_line_items, split_column_stragglers, Jump, Link,
    Spot, ValleyFacts,
};
use pdf_inspector::markdown::MarkdownOptions;
use pdf_inspector::ordering::{find_median, sort_by_keys};
use pdf_inspector::reading::{
    find_column, group_into_lines_with_thresholds, place_items, spans_multiple_columns, ColumnSpan,
};
use pdf_inspector::spacing::{join_rule, JoinRule, LinePiece, TextLine};
use pdf_inspector::tables::Table;
use pdf_inspector::text_utils::is_rtl_text;

#[derive(Clone)]
struct Item {
    text: String,
    x: f32,
    y: f32,
    width: f32,
    font: String,
    size: f32,
    page: u32,
}

fn item(text: &str, x: f32, y: f32, width: f32) -> Item {
    Item {
        text: text.to_string(),
        x,
        y,
        width,
        font: "F1".to_string(),
        size: 12.0,
        page: 1,
    }
}

/// A piece of Helvetica with an estimated width.
fn text_item(text: &str, x: f32, y: f32, size: f32, page: u32) -> Item {
    Item {
        text: text.to_string(),
        x,
        y,
        width: text.len() as f32 * size * 0.5,
        font: "Helvetica".to_string(),
        size,
        page,
    }
}

fn spots(items: &[Item]) -> Vec<Spot> {
    items
        .iter()
        .map(|i| Spot {
            page: i.page,
            x: i.x.to_bits(),
            y: i.y.to_bits(),
        })
        .collect()
}

/// Whether a piece is set right behind another, by the rule for the two.
fn is_tight(prev: &Item, curr: &Item) -> bool {
    let gap = curr.x - (prev.x + prev.width);
    let share = |hundredths: u32| gap < prev.size * hundredths as f32 / 100.0;
    match join_rule(&prev.text, &curr.text, &prev.font, prev.width > 0.0) {
        JoinRule::Apart => false,
        JoinRule::Together => true,
        JoinRule::Within(limit) => share(limit),
        JoinRule::WithinUnlessTouching(limit) => {
            !(gap >= 0.0 && gap < prev.size * 0.01) && share(limit)
        }
        JoinRule::WithinCharacters(tenths) => {
            let character = prev.size * 0.45;
            let gap = curr.x - (prev.x + prev.text.chars().count() as f32 * character);
            gap < character * tenths as f32 / 10.0
        }
    }
}

/// Puts pieces into lines and writes the text of each.
fn lines_of(items: &[Item]) -> Vec<TextLine> {
    let spots = spots(items);
    let lines = group_single_column(&spots, false, |first, last, k| {
        let diff = (items[first].y - items[k].y).abs();
        diff < 3.0
            && !(diff > 0.5
                && ((items[k].x - items[first].x).abs() < 5.0
                    || items[k].x < items[last].x - 10.0))
    });
    lines
        .iter()
        .map(|line| {
            let texts: Vec<&str> = line.iter().map(|&k| items[k].text.as_str()).collect();
            let sorted = sort_line_items(&spots, line, is_rtl_text(&texts));
            let pieces = sorted
                .iter()
                .enumerate()
                .map(|(p, &k)| LinePiece {
                    text: items[k].text.clone(),
                    is_bold: false,
                    is_italic: false,
                    is_tight: p > 0 && is_tight(&items[sorted[p - 1]], &items[k]),
                })
                .collect();
            TextLine {
                items: pieces,
                y: spots[line[0]].y,
                page: spots[line[0]].page,
            }
        })
        .collect()
}

fn texts_of(items: &[Item]) -> Vec<String> {
    lines_of(items).iter().map(|l| l.text()).collect()
}

fn check_group_into_lines() {
    let items = vec![
        item("Hello", 100.0, 700.0, 50.0),
        item("World", 160.0, 700.0, 50.0),
        item("Next line", 100.0, 680.0, 80.0),
    ];
    let lines = lines_of(&items);
    assert_eq!(lines.len(), 2);
    assert_eq!(lines[0].text(), "Hello World");
    assert_eq!(lines[1].text(), "Next line");
}

#[test]
fn extractor_test_group_into_lines() {
    check_group_into_lines();
}

#[test]
fn mod_test_group_into_lines() {
    check_group_into_lines();
}

#[test]
fn test_group_into_lines_empty() {
    assert!(lines_of(&[]).is_empty());
}

#[test]
fn test_group_into_lines_same_line() {
    let items = vec![
        text_item("A", 100.0, 700.0, 12.0, 1),
        text_item("B", 120.0, 700.0, 12.0, 1),
        text_item("C", 140.0, 700.0, 12.0, 1),
    ];
    let lines = lines_of(&items);
    assert_eq!(lines.len(), 1);
    assert_eq!(lines[0].items.len(), 3);
    assert_eq!(lines[0].text(), "A B C");
}

#[test]
fn test_group_into_lines_different_lines() {
    let items = vec![
        text_item("Line1", 100.0, 700.0, 12.0, 1),
        text_item("Line2", 100.0, 680.0, 12.0, 1),
        text_item("Line3", 100.0, 660.0, 12.0, 1),
    ];
    assert_eq!(texts_of(&items), vec!["Line1", "Line2", "Line3"]);
}

#[test]
fn test_group_into_lines_y_tolerance() {
    let items = vec![
        text_item("A", 100.0, 700.0, 12.0, 1),
        text_item("B", 150.0, 700.0, 12.0, 1), // Same Y
    ];
    assert_eq!(texts_of(&items), vec!["A B"]);
}

#[test]
fn test_group_into_lines_multiple_pages() {
    let items = vec![
        text_item("Page1Text", 100.0, 700.0, 12.0, 1),
        text_item("Page2Text", 100.0, 700.0, 12.0, 2),
    ];
    let lines = lines_of(&items);
    assert_eq!(lines.len(), 2);
    assert_eq!(lines[0].page, 1);
    assert_eq!(lines[1].page, 2);
}

#[test]
fn test_group_into_lines_sorting_by_x() {
    let items = vec![
        text_item("Third", 200.0, 700.0, 12.0, 1),
        text_item("First", 50.0, 700.0, 12.0, 1),
        text_item("Second", 100.0, 700.0, 12.0, 1),
    ];
    assert_eq!(texts_of(&items), vec!["First Second Third"]);
}

#[test]
fn test_text_line_text_method() {
    let items = vec![
        text_item("Hello", 100.0, 700.0, 12.0, 1),
        text_item("World", 160.0, 700.0, 12.0, 1),
    ];
    assert_eq!(lines_of(&items)[0].text(), "Hello World");
}

#[test]
fn test_text_line_single_item() {
    assert_eq!(texts_of(&[text_item("Single", 100.0, 700.0, 12.0, 1)]), vec!["Single"]);
}

#[test]
fn test_text_line_empty() {
    let line = TextLine {
        items: vec![],
        y: 700.0f32.to_bits(),
        page: 1,
    };
    assert_eq!(line.text(), "");
}

fn check_word_level_items_get_spaces() {
    let mut items = vec![
        item("the", 100.0, 500.0, 19.5),
        item("Prague", 119.5, 500.0, 42.0),
        item("Rules", 161.5, 500.0, 35.0),
    ];
    for i in &mut items {
        i.font = "C2_0".to_string();
    }
    assert_eq!(texts_of(&items), vec!["the Prague Rules"]);
}

#[test]
fn extractor_test_word_level_items_get_spaces() {
    check_word_level_items_get_spaces();
}

#[test]
fn mod_test_word_level_items_get_spaces() {
    check_word_level_items_get_spaces();
}

fn check_single_char_items_still_join() {
    let items = vec![
        item("N", 100.0, 500.0, 8.0),
        item("A", 108.0, 500.0, 8.0),
        item("V", 116.0, 500.0, 8.0),
    ];
    assert_eq!(texts_of(&items), vec!["NAV"]);
}

#[test]
fn extractor_test_single_char_items_still_join() {
    check_single_char_items_still_join();
}

#[test]
fn mod_test_single_char_items_still_join() {
    check_single_char_items_still_join();
}

fn glyph(text: &str, x: f32, y: f32, width: f32, font: &str) -> Item {
    Item {
        text: text.to_string(),
        x,
        y,
        width,
        font: font.to_string(),
        size: 13.3,
        page: 1,
    }
}

fn check_per_glyph_word_boundaries() {
    // "Item 2" with a gap of 2.0 between 'm' and '2' at font size 13.3
    let items = vec![
        glyph("I", 24.3, 719.3, 3.1, "F4"),
        glyph("t", 27.5, 719.3, 2.7, "F4"),
        glyph("e", 30.1, 719.3, 3.5, "F4"),
        glyph("m", 33.7, 719.3, 6.7, "F4"),
        glyph("2", 42.3, 719.3, 4.0, "F4"), // gap = 42.3 - 40.4 = 1.9
    ];
    assert_eq!(texts_of(&items), vec!["Item 2"]);
}

#[test]
fn extractor_test_per_glyph_word_boundaries() {
    check_per_glyph_word_boundaries();
}

#[test]
fn mod_test_per_glyph_word_boundaries() {
    check_per_glyph_word_boundaries();
}

fn check_per_glyph_words_not_merged() {
    let items = vec![
        glyph("o", 100.0, 705.5, 4.0, "F5"),
        glyph("f", 104.0, 705.5, 2.7, "F5"),
        // word gap: 108.7 -> 110.7 (gap = 4.0)
        glyph("t", 110.7, 705.5, 2.7, "F5"),
        glyph("h", 113.4, 705.5, 4.4, "F5"),
        glyph("e", 117.8, 705.5, 3.5, "F5"),
    ];
    assert_eq!(texts_of(&items), vec!["of the"]);
}

#[test]
fn extractor_test_per_glyph_words_not_merged() {
    check_per_glyph_words_not_merged();
}

#[test]
fn mod_test_per_glyph_words_not_merged() {
    check_per_glyph_words_not_merged();
}

fn check_cjk_items_join_without_spaces() {
    let mut items = vec![
        item("\u{3067}\u{3042}\u{308B}", 100.0, 500.0, 24.0),
        item("\u{5C65}\u{884C}\u{7FA9}\u{52D9}", 124.0, 500.0, 32.0),
        item("\u{3092}\u{8B58}\u{5225}\u{3059}", 156.0, 500.0, 32.0),
    ];
    for i in &mut items {
        i.font = "C2_0".to_string();
    }
    assert_eq!(
        texts_of(&items),
        vec!["\u{3067}\u{3042}\u{308B}\u{5C65}\u{884C}\u{7FA9}\u{52D9}\u{3092}\u{8B58}\u{5225}\u{3059}"]
    );
}

#[test]
fn extractor_test_cjk_items_join_without_spaces() {
    check_cjk_items_join_without_spaces();
}

#[test]
fn mod_test_cjk_items_join_without_spaces() {
    check_cjk_items_join_without_spaces();
}

#[test]
fn rules_for_joining() {
    let known = |a: &str, b: &str| join_rule(a, b, "F1", true);
    let unknown = |a: &str, b: &str| join_rule(a, b, "F1", false);
    assert_eq!(known("a ", "b"), JoinRule::Apart);
    assert_eq!(known("www", ".com"), JoinRule::Together);
    assert_eq!(known("Clave:", "T9"), JoinRule::Apart);
    assert_eq!(known("34,20", "8"), JoinRule::Within(30));
    assert_eq!(known("+", "13"), JoinRule::Within(30));
    assert_eq!(known("b", "illion"), JoinRule::Within(20));
    assert_eq!(known("a", "b"), JoinRule::Within(10));
    assert_eq!(known("1", ","), JoinRule::Together);
    assert_eq!(known("%", "1"), JoinRule::Within(25));
    assert_eq!(known("enterta", "inment"), JoinRule::Within(18));
    assert_eq!(known("LCOE", "WITH"), JoinRule::Within(15));
    assert_eq!(join_rule("one", "two", "C2_0", true), JoinRule::WithinUnlessTouching(18));
    assert_eq!(join_rule("one two three", "four", "C2_0", true), JoinRule::Within(18));
    assert_eq!(unknown("CONST", "ANCIA"), JoinRule::WithinCharacters(8));
    assert_eq!(unknown("presente", "CONSTANCIA"), JoinRule::Apart);
    assert_eq!(unknown("REGISTRO", "para"), JoinRule::WithinCharacters(3));
    assert_eq!(unknown("a1", "2"), JoinRule::WithinCharacters(5));
    assert_eq!(unknown("\u{4E2D}", "\u{6587}"), JoinRule::WithinCharacters(8));
}

#[test]
fn styles_are_marked() {
    let piece = |text: &str, is_bold: bool, is_italic: bool| LinePiece {
        text: text.to_string(),
        is_bold,
        is_italic,
        is_tight: false,
    };
    let line = TextLine {
        items: vec![
            piece("plain", false, false),
            piece("bold", true, false),
            piece("both", true, true),
            piece("  ", false, false),
            piece(" end", false, false),
            piece("-", false, false),
            piece("x", false, true),
        ],
        y: 0,
        page: 1,
    };
    assert_eq!(line.text_with_formatting(true, true), "plain **bold *both*** end-*x*");
    assert_eq!(line.text_with_formatting(true, false), "plain **bold both** end-x");
    assert_eq!(line.text(), "plain bold both   end-x");
}

/// Sorts the pieces of a line by the direction of its text.
fn sorted_line(items: &[Item]) -> Vec<f32> {
    let texts: Vec<&str> = items.iter().map(|i| i.text.as_str()).collect();
    let line: Vec<usize> = (0..items.len()).collect();
    sort_line_items(&spots(items), &line, is_rtl_text(&texts))
        .iter()
        .map(|&k| items[k].x)
        .collect()
}

#[test]
fn test_rtl_line_sorting() {
    let items = vec![
        item("\u{05D0}", 100.0, 700.0, 10.0), // alef at x=100
        item("\u{05D1}", 200.0, 700.0, 10.0), // bet at x=200 (rightmost)
    ];
    // RTL: rightmost (higher X) comes first
    assert_eq!(sorted_line(&items), vec![200.0, 100.0]);
}

#[test]
fn test_ltr_unaffected() {
    let items = vec![
        item("Hello", 100.0, 700.0, 50.0),
        item("World", 200.0, 700.0, 50.0),
    ];
    // LTR: leftmost comes first
    assert_eq!(sorted_line(&items), vec![100.0, 200.0]);
}

fn beside(a: u32, b: u32) -> bool {
    (f32::from_bits(a) - f32::from_bits(b)).abs() < 5.0
}

fn heights(n: usize, step: f32) -> Vec<u32> {
    (0..n).map(|i| (700.0 - i as f32 * step).to_bits()).collect()
}

#[test]
fn test_newspaper_layout_detection() {
    // Two dense columns (>15 lines each) with matching Y positions
    assert!(is_newspaper_layout(&vec![heights(20, 14.0), heights(20, 14.0)], beside));
}

#[test]
fn test_tabular_layout_detection() {
    // Sparse columns (<15 lines)
    assert!(!is_newspaper_layout(&vec![heights(5, 14.0), heights(5, 14.0)], beside));
}

#[test]
fn newspaper_columns_of_different_length() {
    assert!(!is_newspaper_layout(&vec![heights(40, 14.0)], beside));
    // Columns of different length are told by the lines beside each other.
    assert!(is_newspaper_layout(&vec![heights(40, 14.0), heights(20, 14.0)], beside));
    assert!(!is_newspaper_layout(&vec![heights(40, 14.0), heights(20, 70.0)], beside));
    // Seven tenths are not more than seven tenths.
    assert!(!is_newspaper_layout(&vec![heights(30, 14.0), heights(21, 2000.0)], beside));
    assert!(is_newspaper_layout(&vec![heights(30, 14.0), heights(22, 2000.0)], beside));
}

#[test]
fn page_numbers_stand_in_the_margin() {
    assert!(is_page_number(" 12 ", 750.0f32.to_bits()));
    assert!(is_page_number("7", 99.9f32.to_bits()));
    assert!(is_page_number("7", (-5.0f32).to_bits()));
    assert!(!is_page_number("7", 720.0f32.to_bits()));
    assert!(!is_page_number("7", 100.0f32.to_bits()));
    assert!(!is_page_number("12345", 750.0f32.to_bits()));
    assert!(!is_page_number("1a", 750.0f32.to_bits()));
    assert!(!is_page_number("", 750.0f32.to_bits()));
    assert!(!is_page_number("7", f32::NAN.to_bits()));
}

#[test]
fn chaotic_pieces_are_sorted() {
    assert!(should_use_y_sorting(&vec![Jump::Up, Jump::Down, Jump::Up, Jump::Level]));
    assert!(!should_use_y_sorting(&vec![Jump::Up, Jump::Up, Jump::Up]));
    assert!(!should_use_y_sorting(&vec![Jump::Up, Jump::Up, Jump::Level, Jump::Level]));
    // Two in five are not more than two in five.
    let jumps = vec![Jump::Up, Jump::Up, Jump::Down, Jump::Down, Jump::Down];
    assert!(!should_use_y_sorting(&jumps));
    let items = vec![
        item("c", 10.0, -5.0, 1.0),
        item("b", 20.0, 700.0, 1.0),
        item("a", 10.0, 700.0, 1.0),
    ];
    let lines = group_single_column(&spots(&items), true, |_, _, _| false);
    assert_eq!(lines, vec![vec![2], vec![1], vec![0]]);
}

fn least(values: impl Iterator<Item = f32>) -> f32 {
    values.fold(f32::INFINITY, f32::min)
}

fn greatest(values: impl Iterator<Item = f32>) -> f32 {
    values.fold(f32::NEG_INFINITY, f32::max)
}

/// The gutters of a page of pieces.
fn gutters_of(items: &[Item]) -> Vec<f32> {
    let left = least(items.iter().map(|i| i.x));
    let right = greatest(items.iter().map(|i| i.x + i.width));
    let width = right - left;
    let bins = ((width / 2.0).ceil() as usize).max(1);
    let ranges: Vec<(usize, usize)> = items
        .iter()
        .filter(|i| i.width <= width * 0.6)
        .map(|i| {
            let a = ((i.x - left) / 2.0).floor() as usize;
            let b = ((i.x + i.width - left) / 2.0).ceil() as usize;
            (a.min(bins), b.min(bins))
        })
        .collect();
    let tall = greatest(items.iter().map(|i| i.y)) - least(items.iter().map(|i| i.y));
    let facts = |s: usize, e: usize| {
        let middle = (s + e) as f32;
        let margin = width * 0.05;
        let before = || items.iter().filter(|i| i.x + i.width <= left + middle);
        let behind = || items.iter().filter(|i| i.x >= left + middle);
        let low = least(before().map(|i| i.y)).max(least(behind().map(|i| i.y)));
        let high = greatest(before().map(|i| i.y)).min(greatest(behind().map(|i| i.y)));
        ValleyFacts {
            is_central: middle > margin && middle < width - margin,
            left: before().count() as u32,
            right: behind().count() as u32,
            is_beside: !(tall > 0.0) || (high - low).max(0.0) / tall >= 0.30,
        }
    };
    detect_columns(items.len(), width >= 200.0, bins, &ranges, facts)
        .iter()
        .map(|&(s, e)| left + (s + e) as f32)
        .collect()
}

fn rows(columns: &[(&str, f32, f32)], n: usize) -> Vec<Item> {
    let mut items = Vec::new();
    for i in 0..n {
        let y = 700.0 - i as f32 * 14.0;
        for (text, x, width) in columns {
            items.push(item(text, *x, y, *width));
        }
    }
    items
}

fn check_detect_two_columns() {
    let items = rows(
        &[("Left text here", 72.0, 200.0), ("Right text here", 350.0, 200.0)],
        30,
    );
    let gutters = gutters_of(&items);
    assert_eq!(gutters.len() + 1, 2, "Expected 2 columns, got {:?}", gutters);
    assert!(gutters[0] > 272.0 && gutters[0] < 350.0);
}

#[test]
fn extractor_test_detect_two_columns() {
    check_detect_two_columns();
}

#[test]
fn mod_test_detect_two_columns() {
    check_detect_two_columns();
}

fn check_detect_three_columns() {
    let items = rows(
        &[
            ("Col one", 50.0, 140.0),
            ("Col two", 220.0, 140.0),
            ("Col three", 390.0, 140.0),
        ],
        30,
    );
    let gutters = gutters_of(&items);
    assert_eq!(gutters.len() + 1, 3, "Expected 3 columns, got {:?}", gutters);
}

#[test]
fn extractor_test_detect_three_columns() {
    check_detect_three_columns();
}

#[test]
fn mod_test_detect_three_columns() {
    check_detect_three_columns();
}

fn check_width_bleed_tolerance() {
    let mut items = rows(&[("Left text", 72.0, 200.0), ("Right text", 350.0, 200.0)], 30);
    // A few pieces that bleed across the gutter
    items.extend(rows(&[("wide", 72.0, 320.0)], 3));
    let gutters = gutters_of(&items);
    assert!(
        gutters.len() + 1 >= 2,
        "Width bleed should not prevent column detection, got {:?}",
        gutters
    );
}

#[test]
fn extractor_test_width_bleed_tolerance() {
    check_width_bleed_tolerance();
}

#[test]
fn mod_test_width_bleed_tolerance() {
    check_width_bleed_tolerance();
}

/// Dense pieces in a zone of a page, with overlapping coverage.
fn fill_zone(x_start: f32, x_end: f32, y_start: f32, y_end: f32) -> Vec<Item> {
    let mut items = Vec::new();
    let mut y = y_start;
    while y >= y_end {
        let mut x = x_start;
        while x + 60.0 <= x_end {
            items.push(item("SomeText__", x, y, 60.0));
            x += 55.0;
        }
        y -= 14.0;
    }
    items
}

#[test]
fn three_zone_layout_detected() {
    let mut items = Vec::new();
    items.extend(fill_zone(15.0, 330.0, 750.0, 50.0));
    items.extend(fill_zone(345.0, 660.0, 750.0, 50.0));
    items.extend(fill_zone(675.0, 800.0, 750.0, 50.0));
    let gutters = gutters_of(&items);
    assert_eq!(gutters.len() + 1, 3, "Expected 3 columns, got {:?}", gutters);
    assert!((290.0..=350.0).contains(&gutters[0]), "First gutter at {}", gutters[0]);
    assert!((620.0..=680.0).contains(&gutters[1]), "Second gutter at {}", gutters[1]);
}

#[test]
fn two_column_regression_guard() {
    let mut items = Vec::new();
    items.extend(fill_zone(30.0, 280.0, 750.0, 50.0));
    items.extend(fill_zone(320.0, 570.0, 750.0, 50.0));
    let gutters = gutters_of(&items);
    assert_eq!(gutters.len() + 1, 2, "Expected 2 columns, got {:?}", gutters);
    assert!((280.0..=320.0).contains(&gutters[0]), "Gutter at {}", gutters[0]);
}

#[test]
fn score_prefers_balanced_gutter_over_wide_gap() {
    let mut items = Vec::new();
    items.extend(fill_zone(15.0, 200.0, 750.0, 50.0));
    items.extend(fill_zone(220.0, 400.0, 750.0, 50.0));
    items.extend(fill_zone(420.0, 600.0, 750.0, 50.0));
    // A sparse zone far to the right
    for y_off in 0..12 {
        items.push(item("Sparse____", 700.0, 750.0 - y_off as f32 * 50.0, 60.0));
    }
    let gutters = gutters_of(&items);
    assert!(
        gutters.len() + 1 >= 3,
        "Expected >=3 columns for dense zones, got {:?}",
        gutters
    );
}

fn check_single_column_no_false_split() {
    let items = rows(&[("This is a full-width paragraph of text", 72.0, 468.0)], 30);
    let gutters = gutters_of(&items);
    assert_eq!(
        gutters.len() + 1,
        1,
        "Full-width text should not be split into columns, got {:?}",
        gutters
    );
}

#[test]
fn extractor_test_single_column_no_false_split() {
    check_single_column_no_false_split();
}

#[test]
fn mod_test_single_column_no_false_split() {
    check_single_column_no_false_split();
}

#[test]
fn valleys_are_runs_of_empty_bins() {
    assert_eq!(find_valleys(&vec![0, 20, 3, 4, 0, 0]), vec![(0, 1), (2, 3), (4, 6)]);
    assert_eq!(find_valleys(&vec![5, 5]), vec![]);
    assert_eq!(find_valleys(&vec![]), vec![]);
    assert_eq!(find_valleys(&vec![0, 0]), vec![(0, 2)]);
    assert_eq!(build_histogram(4, &vec![(0, 2), (1, 9)]), vec![1, 2, 1, 1]);
}

#[test]
fn the_best_three_gutters_are_kept() {
    let fact = |left: u32, right: u32| ValleyFacts {
        is_central: true,
        left,
        right,
        is_beside: true,
    };
    let valleys = vec![(0, 4), (10, 20), (30, 36), (40, 60), (70, 73)];
    let facts = vec![fact(50, 50), fact(10, 90), fact(40, 60), fact(11, 11), fact(99, 99)];
    // Scores: 200, 100, 240, 220; the last is too narrow.
    assert_eq!(select_gutters(&valleys, &facts), vec![0, 2, 3]);
    let facts = vec![fact(9, 50), fact(10, 90), fact(40, 60), fact(11, 11), fact(99, 99)];
    assert_eq!(select_gutters(&valleys, &facts), vec![1, 2, 3]);
}

#[test]
fn the_core_of_a_column_is_its_longest_block() {
    assert_eq!(split_column_stragglers(2, &vec![]), (0, 2));
    assert_eq!(split_column_stragglers(4, &vec![false, false, false]), (0, 4));
    assert_eq!(split_column_stragglers(5, &vec![true, false, false, true]), (1, 4));
    // Of equals the last counts.
    assert_eq!(split_column_stragglers(4, &vec![false, true, false]), (2, 4));
}

#[test]
fn newspaper_columns_are_read_one_after_the_other() {
    // Lines 0 and 1 span the columns; 2 to 5 and 6 to 8 are the columns.
    let heights: Vec<u32> = [100.0f32, 800.0, 900.0, 700.0, 690.0, 10.0, 700.0, 690.0, 680.0]
        .iter()
        .map(|y| y.to_bits())
        .collect();
    let above = vec![false, true, true, false, false, false, false, false, false];
    let order = arrange_newspaper(
        &vec![0, 1],
        &vec![vec![2, 3, 4, 5], vec![6, 7, 8]],
        &vec![(1, 3), (0, 3)],
        &above,
        &heights,
    );
    assert_eq!(order, vec![2, 1, 3, 4, 6, 7, 8, 5, 0]);
}

#[test]
fn equal_keys_stay_in_order() {
    let keys = vec![(2, 0), (1, 5), (1, 4), (1, 5), (0, 0)];
    assert_eq!(sort_by_keys(&vec![0, 1, 2, 3, 4], &keys), vec![4, 2, 1, 3, 0]);
}

#[test]
fn pieces_at_the_same_height_are_merged() {
    let items = vec![
        item("J", 310.0, 532.0, 4.0),
        item("Mar", 378.3, 533.0, 15.0),
        item("3", 328.3, 532.0, 4.0),
        item("une", 314.0, 531.0, 12.3),
        item("below", 310.0, 400.0, 20.0),
        item("0,", 332.3, 532.0, 6.0),
    ];
    let spots = spots(&items);
    let near = |a: usize, b: usize| (items[a].y - items[b].y).abs() < 5.0;
    let (heads, slots) = group_by_height(&spots, near);
    assert_eq!(heads, vec![0, 4]);
    assert_eq!(slots, vec![0, 0, 0, 0, 1, 0]);
    let follow = |first: usize, prev: usize, next: usize| {
        let gap = items[next].x - (items[prev].x + items[prev].width);
        let size = items[first].size;
        if gap > size * 0.5 || gap < -size * 0.5 {
            Link::Break
        } else if gap > size * 0.08 {
            Link::JoinSpaced
        } else {
            Link::Join
        }
    };
    let texts: Vec<String> = items.iter().map(|i| i.text.clone()).collect();
    let merged = merge_text_items(&spots, &texts, near, follow);
    let texts: Vec<String> = merged
        .iter()
        .flatten()
        .map(|m| {
            let parts = m.items.iter().map(|&k| items[k].text.clone()).collect();
            join_linked(&parts, &m.links)
        })
        .collect();
    assert_eq!(texts, vec!["June 30,", "Mar", "below"]);
    let (end, links) = find_run(&vec![0, 3, 2, 5, 1], 0, follow);
    assert_eq!(end, 4);
    assert_eq!(links, vec![Link::Break, Link::Join, Link::JoinSpaced, Link::Join]);
}

#[test]
fn pieces_are_put_into_columns() {
    let piece = |reaches: &[bool], overlaps: &[f32]| ColumnSpan {
        reaches: reaches.to_vec(),
        overlaps: overlaps.iter().map(|o| o.to_bits()).collect(),
    };
    let pieces = vec![
        piece(&[true, false], &[30.0, 0.0]),
        piece(&[true, true], &[30.0, 40.0]),
        piece(&[false, false], &[2.0, 3.0]),
        piece(&[false, false], &[0.0, 0.0]),
    ];
    assert!(spans_multiple_columns(&pieces[1]) && !spans_multiple_columns(&pieces[0]));
    assert_eq!(find_column(&pieces[2]), 1);
    // Of equals the first counts.
    assert_eq!(find_column(&pieces[3]), 0);
    assert_eq!(place_items(&pieces, 2), (vec![1], vec![vec![0, 3], vec![2]]));
}

/// Puts the lines of a page with columns into order, as heights and left edges.
fn rows_of(lines: &[(f32, f32)], spanning: Vec<usize>, columns: Vec<Vec<usize>>) -> Vec<Vec<usize>> {
    let lines: Vec<Spot> = lines
        .iter()
        .map(|&(x, y)| Spot {
            page: 1,
            x: x.to_bits(),
            y: y.to_bits(),
        })
        .collect();
    let real = f32::from_bits;
    group_into_lines_with_thresholds(
        &lines,
        &spanning,
        &columns,
        beside,
        |a, b| (real(a) - real(b)).to_bits(),
        |gap, median| real(gap) > (real(median) * 3.0).max(30.0),
        |y, top| real(y) > real(top) + 5.0,
        |first, _, k| (real(lines[first].y) - real(lines[k].y)).abs() < 3.0,
    )
}

#[test]
fn sparse_columns_are_read_row_by_row() {
    let lines = [(50.0, 700.0), (50.0, 680.0), (300.0, 701.0), (300.0, 660.0), (50.0, 760.0)];
    assert_eq!(
        rows_of(&lines, vec![4], vec![vec![0, 1], vec![2, 3]]),
        vec![vec![4], vec![2, 0], vec![1], vec![3]]
    );
}

#[test]
fn dense_columns_are_read_in_turn() {
    let mut lines = vec![(50.0, 760.0), (50.0, 40.0)];
    let mut columns = vec![vec![], vec![]];
    for (c, x) in [(0, 50.0), (1, 300.0)] {
        for i in 0..20 {
            columns[c].push(lines.len());
            lines.push((x, 700.0 - i as f32 * 14.0));
        }
        // A straggler far below.
        columns[c].push(lines.len());
        lines.push((x, 100.0));
    }
    let rows = rows_of(&lines, vec![0, 1], columns);
    let order: Vec<usize> = rows.iter().map(|r| r[0]).collect();
    let mut expected = vec![0];
    expected.extend(2..22);
    expected.extend(23..43);
    expected.extend([22, 43, 1]);
    assert_eq!(order, expected);
    assert!(rows.iter().all(|r| r.len() == 1));
}

#[test]
fn the_median_is_the_middle_value() {
    let bits = |v: &[f32]| v.iter().map(|x| x.to_bits()).collect::<Vec<u32>>();
    assert_eq!(find_median(&bits(&[3.0, -1.0, 2.0])), 2.0f32.to_bits());
    assert_eq!(find_median(&bits(&[4.0, 3.0, 1.0, 2.0])), 3.0f32.to_bits());
}

/// Writes pieces as Markdown, with headings by the sizes of their fonts.
fn to_markdown_from_items(items: Vec<Item>, options: MarkdownOptions) -> String {
    let hundredths = |size: f32| (size * 100.0).round() as u32;
    let sizes: Vec<u32> = items.iter().map(|i| hundredths(i.size)).collect();
    let base = most_common_size(&sizes);
    let tiers = heading_tiers(&sizes, base);
    let lines: Vec<DocLine> = lines_of(&items)
        .iter()
        .map(|line| {
            let first = items
                .iter()
                .find(|i| i.page == line.page && i.y.to_bits() == line.y)
                .unwrap();
            DocLine {
                spot: Spot {
                    page: line.page,
                    x: first.x.to_bits(),
                    y: line.y,
                },
                size: hundredths(first.size),
                is_mono: is_monospace_font(&first.font),
                text: line.text_with_formatting(options.detect_bold, options.detect_italic),
            }
        })
        .collect();
    to_markdown_from_lines(&lines, &vec![], base, &tiers, &options)
}

#[test]
fn test_markdown_from_items_empty() {
    assert!(to_markdown_from_items(vec![], MarkdownOptions::default()).is_empty());
}

#[test]
fn test_markdown_from_items_single() {
    let items = vec![text_item("Hello", 100.0, 700.0, 12.0, 1)];
    let md = to_markdown_from_items(items, MarkdownOptions::default());
    assert!(md.contains("Hello"));
}

#[test]
fn test_markdown_from_items_header_detection() {
    let items = vec![
        text_item("Title", 100.0, 750.0, 24.0, 1), // Large font = H1
        text_item("Body text one", 100.0, 700.0, 12.0, 1),
        text_item("Body text two", 100.0, 680.0, 12.0, 1),
        text_item("Body text three", 100.0, 660.0, 12.0, 1),
    ];
    let md = to_markdown_from_items(items, MarkdownOptions::default());
    assert!(md.contains("# Title"));
    assert!(md.contains("Body text"));
}

#[test]
fn test_markdown_from_items_h2_detection() {
    // Two heading tiers: 24.0 is H1, 18.0 is H2
    let items = vec![
        text_item("Title", 100.0, 800.0, 24.0, 1),
        text_item("Subtitle", 100.0, 750.0, 18.0, 1),
        text_item("Body text one", 100.0, 700.0, 12.0, 1),
        text_item("Body text two", 100.0, 680.0, 12.0, 1),
        text_item("Body text three", 100.0, 660.0, 12.0, 1),
    ];
    let md = to_markdown_from_items(items, MarkdownOptions::default());
    assert!(md.contains("## Subtitle"));
}

#[test]
fn test_markdown_from_items_monospace_code() {
    let mut code = text_item("let x = 5", 100.0, 700.0, 12.0, 1);
    code.font = "Courier".to_string();
    let md = to_markdown_from_items(vec![code], MarkdownOptions::default());
    assert!(md.contains("```"));
    assert!(md.contains("let x = 5"));
}

#[test]
fn test_markdown_from_items_page_breaks() {
    let items = vec![
        text_item("Content on first page", 100.0, 700.0, 12.0, 1),
        text_item("Content on second page", 100.0, 700.0, 12.0, 2),
    ];
    let md = to_markdown_from_items(items, MarkdownOptions::default());
    // Pages should be separated by blank lines (no --- markers)
    assert!(!md.contains("---"));
    assert!(md.contains("Content on first page"));
    assert!(md.contains("Content on second page"));
    assert!(md.contains("page\n\nContent"));
}

fn doc_line(page: u32, y: f32, size: u32, text: &str) -> DocLine {
    DocLine {
        spot: Spot {
            page,
            x: 100.0f32.to_bits(),
            y: y.to_bits(),
        },
        size,
        is_mono: false,
        text: text.to_string(),
    }
}

#[test]
fn test_markdown_from_lines_empty() {
    let md = to_markdown_from_lines(&vec![], &vec![], 1200, &vec![], &MarkdownOptions::default());
    assert!(md.is_empty());
}

#[test]
fn test_markdown_from_lines_basic() {
    let lines = vec![doc_line(1, 700.0, 1200, "First"), doc_line(1, 680.0, 1200, "Second")];
    let md = to_markdown_from_lines(&lines, &vec![], 1200, &vec![], &MarkdownOptions::default());
    assert!(md.contains("First"));
    assert!(md.contains("Second"));
}

#[test]
fn test_header_level_h1() {
    // 24.0 / 12.0 = 2.0x = H1
    let items = vec![
        text_item("H1 Title", 100.0, 700.0, 24.0, 1),
        text_item("body text one", 100.0, 650.0, 12.0, 1),
        text_item("body text two", 100.0, 630.0, 12.0, 1),
        text_item("body text three", 100.0, 610.0, 12.0, 1),
    ];
    let md = to_markdown_from_items(items, MarkdownOptions::default());
    assert!(md.contains("# H1 Title"));
}

#[test]
fn test_single_heading_tier_becomes_h1() {
    // Single heading tier: 18.0pt on 12.0pt base is H1 (not H2)
    let items = vec![
        text_item("Section Title", 100.0, 700.0, 18.0, 1),
        text_item("body text one", 100.0, 650.0, 12.0, 1),
        text_item("body text two", 100.0, 630.0, 12.0, 1),
        text_item("body text three", 100.0, 610.0, 12.0, 1),
    ];
    let md = to_markdown_from_items(items, MarkdownOptions::default());
    assert!(md.contains("# Section Title"));
    assert!(!md.contains("## Section Title"));
}

#[test]
fn test_header_level_h2() {
    let items = vec![
        text_item("H1 Title", 100.0, 750.0, 24.0, 1),
        text_item("H2 Title", 100.0, 700.0, 18.0, 1),
        text_item("body text one", 100.0, 650.0, 12.0, 1),
        text_item("body text two", 100.0, 630.0, 12.0, 1),
        text_item("body text three", 100.0, 610.0, 12.0, 1),
    ];
    let md = to_markdown_from_items(items, MarkdownOptions::default());
    assert!(md.contains("# H1 Title"));
    assert!(md.contains("## H2 Title"));
}

#[test]
fn test_header_level_h3() {
    let items = vec![
        text_item("H1 Title", 100.0, 800.0, 24.0, 1),
        text_item("H2 Title", 100.0, 750.0, 18.0, 1),
        text_item("H3 Title", 100.0, 700.0, 15.0, 1),
        text_item("body text one", 100.0, 650.0, 12.0, 1),
        text_item("body text two", 100.0, 630.0, 12.0, 1),
        text_item("body text three", 100.0, 610.0, 12.0, 1),
    ];
    let md = to_markdown_from_items(items, MarkdownOptions::default());
    assert!(md.contains("### H3 Title"));
}

#[test]
fn test_header_level_h4() {
    let items = vec![
        text_item("H1 Title", 100.0, 850.0, 24.0, 1),
        text_item("H2 Title", 100.0, 800.0, 18.0, 1),
        text_item("H3 Title", 100.0, 750.0, 15.0, 1),
        text_item("H4 Title", 100.0, 700.0, 14.5, 1),
        text_item("body text one", 100.0, 650.0, 12.0, 1),
        text_item("body text two", 100.0, 630.0, 12.0, 1),
        text_item("body text three", 100.0, 610.0, 12.0, 1),
    ];
    let md = to_markdown_from_items(items, MarkdownOptions::default());
    assert!(md.contains("#### H4 Title"));
}

#[test]
fn blocks_stand_between_lines() {
    let block = |page: u32, y: f32, markdown: &str| Block {
        spot: Spot {
            page,
            x: 0,
            y: y.to_bits(),
        },
        markdown: markdown.to_string(),
    };
    let lines = vec![
        doc_line(1, 700.0, 1200, "above"),
        doc_line(1, 500.0, 1200, "below"),
        doc_line(3, 700.0, 1200, "const x = 5;"),
    ];
    let blocks = vec![
        block(3, 100.0, "last\n"),
        block(1, 600.0, "| t |\n"),
        block(2, 600.0, "alone\n"),
        block(1, 620.0, "![i](image)\n"),
    ];
    let options = MarkdownOptions {
        include_page_numbers: true,
        ..MarkdownOptions::default()
    };
    assert_eq!(
        to_markdown_from_lines(&lines, &blocks, 1200, &vec![], &options),
        "above\n\n![i](image)\n\n\n| t |\n\nbelow\n\n<!-- Page 2 -->\n\n\nalone\n\n\n\
         <!-- Page 3 -->\n\n```\nconst x = 5;\n```\n\nlast\n\n"
    );
}

#[test]
fn sizes_are_counted() {
    assert_eq!(most_common_size(&vec![900, 1200, 1000, 1200, 900]), 900);
    assert_eq!(most_common_size(&vec![900, 1200, 1200]), 1200);
    assert_eq!(most_common_size(&vec![]), 1200);
    assert_eq!(heading_tiers(&vec![1440, 1200, 2400, 1439, 1440], 1200), vec![2400, 1440]);
}

#[test]
fn groups_are_read_by_their_direction() {
    let items = vec![
        item("\u{05D0}", 100.0, 700.0, 10.0),
        item("\u{05D1}", 200.0, 700.0, 10.0),
    ];
    let texts: Vec<String> = items.iter().map(|i| i.text.clone()).collect();
    let merged = merge_text_items(&spots(&items), &texts, |_, _| true, |_, _, _| Link::JoinSpaced);
    assert_eq!(merged[0][0].items, vec![1, 0]);
}

#[test]
fn images_and_tables_become_blocks() {
    let items = vec![item("text", 0.0, 700.0, 10.0), item("[Image: Im0]", 5.0, 650.0, 0.0)];
    let texts: Vec<String> = items.iter().map(|i| i.text.clone()).collect();
    let table = Table {
        columns: vec![0],
        rows: vec![600.0f32.to_bits()],
        cells: vec![vec!["a".to_string()]],
        item_indices: vec![2, 0],
    };
    let tables = vec![PageTable { page: 3, table }];
    let (blocks, rest) = gather_blocks(&spots(&items), &texts, &vec![1], &tables, 4);
    assert_eq!(rest, vec![1, 3]);
    assert_eq!(blocks[0].markdown, "![Image: Im0](image)\n");
    assert_eq!(blocks[0].spot, spots(&items)[1]);
    assert_eq!(blocks[1].markdown, "| a |\n| --- |\n");
    assert_eq!((blocks[1].spot.page, blocks[1].spot.y), (3, 600.0f32.to_bits()));
}
