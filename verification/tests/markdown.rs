use pdf_inspector::{to_markdown, MarkdownOptions};
use pdf_inspector::classify::{
    detect_header_level, format_list_item, is_code_like, is_list_item, is_monospace_font,
};
use pdf_inspector::convert::DocLine;
use pdf_inspector::layout::Spot;
use pdf_inspector::markdown::{
    image_markdown, is_worth_searching, plan_searches, table_only_pages, table_to_markdown,
    unclaimed, ItemType,
};
use pdf_inspector::pieces::{to_markdown_from_pieces, DocPiece, PieceKind};
use pdf_inspector::preprocess::{
    find_repeated_lines, is_decorative_separator, is_edge_line, is_structural_line, merge_drop_caps,
    merge_heading_lines, normalize_whitespace, strip_repeated_lines, CapLine, EdgeLine, HeadingLine,
};

#[test]
fn test_is_list_item() {
    assert!(is_list_item("• Item one"));
    assert!(is_list_item("- Item two"));
    assert!(is_list_item("* Item three"));
    assert!(is_list_item("1. First"));
    assert!(is_list_item("2) Second"));
    assert!(is_list_item("a. Letter item"));
    assert!(!is_list_item("Regular text"));
}

#[test]
fn labels_may_stand_in_brackets() {
    assert!(is_list_item("(1) First"));
    assert!(is_list_item("(a) First"));
    assert!(is_list_item("12. Twelfth"));
    assert!(!is_list_item("1.5 metres"));
    assert!(!is_list_item("ab. no label"));
    assert!(!is_list_item("-5 degrees"));
    assert!(!is_list_item(""));
}

#[test]
fn test_format_list_item() {
    assert_eq!(format_list_item("• Item"), "- Item");
    assert_eq!(format_list_item("- Item"), "- Item");
    assert_eq!(format_list_item("1. First"), "1. First");
}

#[test]
fn formatting_twice_changes_nothing() {
    let once = format_list_item("●   Item");
    assert_eq!(once, "- Item");
    assert_eq!(format_list_item(&once), once);
    assert_eq!(format_list_item("* Item"), "* Item");
}

#[test]
fn test_is_code_like() {
    assert!(is_code_like("const x = 5;"));
    assert!(is_code_like("function foo() {"));
    assert!(is_code_like("import React from 'react'"));
    assert!(!is_code_like("This is regular text."));
}

#[test]
fn test_detect_header_level() {
    // Sizes are in hundredths of a point.
    // With three tiers: 24 is H1, 18 is H2, 15 is H3, 12 is none
    let tiers = vec![2400, 1800, 1500];
    assert_eq!(detect_header_level(2400, 1200, &tiers), Some(1));
    assert_eq!(detect_header_level(1800, 1200, &tiers), Some(2));
    assert_eq!(detect_header_level(1500, 1200, &tiers), Some(3));
    assert_eq!(detect_header_level(1200, 1200, &tiers), None);

    // Single tier: 15 is H1 (ratio 1.25), 14 is none (ratio 1.17)
    let tiers = vec![1500];
    assert_eq!(detect_header_level(1500, 1200, &tiers), Some(1));
    assert_eq!(detect_header_level(1400, 1200, &tiers), None);
    assert_eq!(detect_header_level(1200, 1200, &tiers), None);

    // No tiers: the ratio decides
    let tiers: Vec<u32> = vec![];
    assert_eq!(detect_header_level(2400, 1200, &tiers), Some(1));
    assert_eq!(detect_header_level(1800, 1200, &tiers), Some(2));
    assert_eq!(detect_header_level(1500, 1200, &tiers), Some(3));
    assert_eq!(detect_header_level(1450, 1200, &tiers), Some(4));
    assert_eq!(detect_header_level(1400, 1200, &tiers), None);
    assert_eq!(detect_header_level(1200, 1200, &tiers), None);

    // Body text is left out when there are tiers: 13 (ratio 1.08)
    let tiers = vec![2000];
    assert_eq!(detect_header_level(1300, 1200, &tiers), None);
}

#[test]
fn test_to_markdown() {
    let text = "• First item\n• Second item\n\nRegular paragraph.";
    let md = to_markdown(text, MarkdownOptions::default());
    assert!(md.contains("- First item"));
    assert!(md.contains("- Second item"));
    assert_eq!(md, "- First item\n- Second item\n\nRegular paragraph.\n");
}

#[test]
fn code_blocks_are_closed() {
    let opts = MarkdownOptions::default();
    assert_eq!(
        to_markdown("let a = 1;\n\nText", opts.clone()),
        "```\nlet a = 1;\n```\n\nText\n"
    );
    assert_eq!(to_markdown("let a = 1;", opts.clone()), "```\nlet a = 1;\n```\n");
    assert_eq!(
        to_markdown("let a = 1;\nText", opts.clone()),
        "```\nlet a = 1;\n```\nText\n"
    );
    // A list item does not end a code block.
    assert_eq!(
        to_markdown("let a = 1;\n- item\nText", opts.clone()),
        "```\nlet a = 1;\n- item\n```\nText\n"
    );
    assert_eq!(to_markdown("", opts), "");
}

#[test]
fn test_to_markdown_basic() {
    let text = "Hello World";
    let md = to_markdown(text, MarkdownOptions::default());
    assert!(md.contains("Hello World"));
}

#[test]
fn test_to_markdown_multiple_lines() {
    let text = "Line one\nLine two\nLine three";
    let md = to_markdown(text, MarkdownOptions::default());
    assert!(md.contains("Line one"));
    assert!(md.contains("Line two"));
    assert!(md.contains("Line three"));
}

#[test]
fn test_to_markdown_bullet_list() {
    let text = "• First\n• Second\n• Third";
    let md = to_markdown(text, MarkdownOptions::default());
    assert!(md.contains("- First"));
    assert!(md.contains("- Second"));
    assert!(md.contains("- Third"));
}

#[test]
fn test_to_markdown_dash_list() {
    let text = "- One\n- Two\n- Three";
    let md = to_markdown(text, MarkdownOptions::default());
    assert!(md.contains("- One"));
    assert!(md.contains("- Two"));
}

#[test]
fn test_to_markdown_numbered_list() {
    let text = "1. First\n2. Second\n3. Third";
    let md = to_markdown(text, MarkdownOptions::default());
    assert!(md.contains("1. First"));
    assert!(md.contains("2. Second"));
}

#[test]
fn test_to_markdown_code_detection() {
    let text = "const x = 5;\nlet y = 10;";
    let md = to_markdown(text, MarkdownOptions::default());
    assert!(md.contains("```"));
}

#[test]
fn test_to_markdown_no_code_detection() {
    let text = "const x = 5;";
    let opts = MarkdownOptions {
        detect_code: false,
        ..Default::default()
    };
    let md = to_markdown(text, opts);
    assert!(!md.contains("```"));
}

#[test]
fn test_to_markdown_no_list_detection() {
    let text = "• Item";
    let opts = MarkdownOptions {
        detect_lists: false,
        ..Default::default()
    };
    let md = to_markdown(text, opts);
    // Should keep original bullet character
    assert!(md.contains("•"));
}

#[test]
fn test_to_markdown_empty_lines() {
    let text = "Para one\n\nPara two";
    let md = to_markdown(text, MarkdownOptions::default());
    assert!(md.contains("Para one"));
    assert!(md.contains("Para two"));
}

#[test]
fn test_to_markdown_whitespace_only_lines() {
    let text = "Content\n   \nMore content";
    let md = to_markdown(text, MarkdownOptions::default());
    assert!(md.contains("Content"));
    assert!(md.contains("More content"));
}

#[test]
fn test_bullet_variations() {
    // Unicode bullets get converted to markdown dash
    let unicode_bullets = ["• Item", "○ Item", "● Item", "◦ Item"];
    for bullet in &unicode_bullets {
        let md = to_markdown(bullet, MarkdownOptions::default());
        assert!(md.contains("- Item"), "Failed for: {}", bullet);
    }

    // Markdown-compatible bullets stay as-is
    let md_bullets = ["- Item", "* Item"];
    for bullet in &md_bullets {
        let md = to_markdown(bullet, MarkdownOptions::default());
        assert!(md.contains(bullet), "Failed for: {}", bullet);
    }
}

#[test]
fn test_numbered_list_variations() {
    let lists = ["1. First", "2) Second", "10. Tenth"];
    for item in &lists {
        let md = to_markdown(item, MarkdownOptions::default());
        assert!(md.trim().len() > 0, "Failed for: {}", item);
    }
}

#[test]
fn test_letter_list_items() {
    let md = to_markdown("a. Letter item", MarkdownOptions::default());
    assert!(md.contains("a. Letter item"));
}

#[test]
fn test_code_keywords() {
    let keywords = [
        "import foo",
        "export default",
        "const x = 5;",
        "let y = 10;",
        "function test() {",
        "class MyClass {",
        "def func():",
        "pub fn main() {",
        "async fn process() {",
        "impl Trait {",
    ];
    for code in &keywords {
        let md = to_markdown(code, MarkdownOptions::default());
        assert!(md.contains("```"), "Code not detected for: {}", code);
    }
}

#[test]
fn test_code_syntax_patterns() {
    // Patterns that start with code keywords/syntax
    let patterns = [
        "=> value",      // Starts with =>
        "-> Result",     // Starts with ->
        ":: io::Result", // Starts with ::
    ];
    for code in &patterns {
        let md = to_markdown(code, MarkdownOptions::default());
        assert!(md.contains("```"), "Code not detected for: {}", code);
    }
}

#[test]
fn test_code_special_chars() {
    let code = "if (x > 0) { return y; }";
    let md = to_markdown(code, MarkdownOptions::default());
    assert!(md.contains("```"));
}

#[test]
fn test_non_code_text() {
    let text = "This is regular text about programming.";
    let md = to_markdown(text, MarkdownOptions::default());
    assert!(!md.contains("```"));
}

#[test]
fn test_excessive_newlines_preserved_in_plain_text() {
    // Plain text to_markdown preserves structure from input
    let text = "Para one\n\n\n\n\nPara two";
    let md = to_markdown(text, MarkdownOptions::default());
    // The function processes line by line, empty lines become single newlines
    assert!(md.contains("Para one"));
    assert!(md.contains("Para two"));
}

#[test]
fn test_trailing_newline() {
    let text = "Content";
    let md = to_markdown(text, MarkdownOptions::default());
    assert!(md.ends_with('\n'));
    assert!(!md.ends_with("\n\n"));
}

#[test]
fn test_markdown_options_default() {
    let opts = MarkdownOptions::default();
    assert!(opts.detect_headers);
    assert!(opts.detect_lists);
    assert!(opts.detect_code);
    assert!(opts.base_font_size.is_none());
}

#[test]
fn test_markdown_options_custom() {
    let opts = MarkdownOptions {
        detect_headers: false,
        detect_lists: true,
        detect_code: false,
        base_font_size: Some(1400),
        remove_page_numbers: false,
        format_urls: false,
        fix_hyphenation: false,
        detect_bold: false,
        detect_italic: false,
        include_images: false,
        include_links: false,
        include_page_numbers: false,
    };
    assert!(!opts.detect_headers);
    assert!(opts.detect_lists);
    assert!(!opts.detect_code);
    assert_eq!(opts.base_font_size, Some(1400));
    assert!(!opts.remove_page_numbers);
    assert!(!opts.format_urls);
    assert!(!opts.fix_hyphenation);
    assert!(!opts.detect_bold);
    assert!(!opts.detect_italic);
    assert!(!opts.include_images);
    assert!(!opts.include_links);
}

/// The Markdown of a page with one text at (100, 700) in 12 points.
fn markdown_in_font(text: &str, font: &str) -> String {
    let pieces = vec![DocPiece {
        kind: PieceKind::Text,
        size: 1200,
        id: 0,
    }];
    let spot = Spot {
        page: 1,
        x: 100.0f32.to_bits(),
        y: 700.0f32.to_bits(),
    };
    let lines = |rest: &Vec<DocPiece>, _: u32, _: &Vec<u32>| {
        rest.iter()
            .map(|p| DocLine {
                spot,
                size: p.size,
                is_mono: is_monospace_font(font),
                text: text.to_string(),
            })
            .collect()
    };
    to_markdown_from_pieces(
        &pieces,
        &vec![spot],
        &vec![text.to_string()],
        &MarkdownOptions::default(),
        |_, _| Vec::new(),
        lines,
    )
}

#[test]
fn test_monospace_font_names() {
    let monospace_fonts = [
        "Courier",
        "Consolas",
        "Monaco",
        "Menlo",
        "Fira Code",
        "JetBrains Mono",
        "Inconsolata",
        "DejaVu Sans Mono",
        "Liberation Mono",
        "Fixed",
        "Terminal",
    ];
    for font in &monospace_fonts {
        let md = markdown_in_font("code", font);
        assert!(md.contains("```"), "Font not detected as monospace: {}", font);
    }
    assert!(!markdown_in_font("code", "Helvetica").contains("```"));
}

#[test]
fn test_table_to_markdown() {
    let cells: Vec<Vec<String>> = vec![
        vec!["Header 1".into(), "Header 2".into()],
        vec!["Cell 1".into(), "Cell 2".into()],
    ];
    let md = table_to_markdown(&cells);
    assert!(md.contains("| Header 1"));
    assert!(md.contains("| ---"));
    assert!(md.contains("| Cell 1"));
    assert_eq!(md, "| Header 1 | Header 2 |\n| --- | --- |\n| Cell 1 | Cell 2 |\n");
    assert_eq!(table_to_markdown(&vec![]), "");
}

#[test]
fn images_are_named() {
    assert_eq!(image_markdown("[Image: Im0]"), "![Image: Im0](image)\n");
    assert_eq!(image_markdown("[Image: ]"), "![Image: ](image)\n");
    assert_eq!(image_markdown("Im1"), "![Image: Im1](image)\n");
    assert_eq!(image_markdown("[Image: Im0"), "![Image: [Image: Im0](image)\n");
}

#[test]
fn tables_are_searched_where_none_was_found() {
    let hints = vec![vec![true, false, true, false], vec![false, false, true, true]];
    assert_eq!(plan_searches(4, &vec![], &vec![]), vec![vec![0, 1, 2, 3]]);
    assert_eq!(
        plan_searches(4, &vec![], &hints),
        vec![vec![0, 2], vec![2, 3], vec![1]]
    );
    assert_eq!(plan_searches(4, &vec![2], &hints), vec![vec![0, 1, 3]]);
    assert!(is_worth_searching(6) && !is_worth_searching(5));
    assert_eq!(table_only_pages(&vec![1, 2, 4], &vec![2, 3]), vec![1, 4]);
    assert_eq!(unclaimed(5, &vec![3, 0, 9]), vec![1, 2, 4]);
}

#[test]
fn white_space_is_normalized() {
    assert_eq!(normalize_whitespace("  a \t b\n\nc "), "a b c");
    assert_eq!(normalize_whitespace("\u{A0}x\u{3000}y"), "x y");
    assert_eq!(normalize_whitespace("   "), "");
    let once = normalize_whitespace(" a  b ");
    assert_eq!(normalize_whitespace(&once), once);
}

#[test]
fn headings_and_list_items_are_structural() {
    assert!(is_structural_line("# Title"));
    assert!(is_structural_line("  - item"));
    assert!(is_structural_line("* item"));
    assert!(is_structural_line("• item"));
    assert!(is_structural_line("3. item"));
    assert!(is_structural_line("3) item"));
    assert!(!is_structural_line("3 items"));
    assert!(!is_structural_line("-item"));
    assert!(!is_structural_line(""));
}

#[test]
fn separators_are_one_character() {
    assert!(is_decorative_separator("----------"));
    assert!(is_decorative_separator("*"));
    assert!(!is_decorative_separator("--=--"));
    assert!(!is_decorative_separator(""));
}

fn edge(text: &str, page: u32, y: i64) -> EdgeLine {
    EdgeLine {
        text: text.to_string(),
        page,
        y,
    }
}

#[test]
fn running_headers_are_stripped_at_the_edges() {
    let lines = vec![
        edge("Annual  Report 2020", 1, 80000),
        edge("Body of page one", 1, 40000),
        edge("Last line of page one", 1, 10000),
        edge("Annual Report 2020", 2, 80000),
        edge("Annual Report 2020", 2, 40000),
        edge("----------------", 2, 10000),
        edge("Annual Report 2020", 3, 80000),
        edge("short", 3, 10000),
    ];
    assert_eq!(find_repeated_lines(&lines, 3), vec![vec![0, 3, 6]]);
    assert_eq!(strip_repeated_lines(&lines, 3, |_| true), vec![1, 2, 4, 5, 7]);
    // Where the heights vary it is no running header.
    assert_eq!(strip_repeated_lines(&lines, 3, |_| false).len(), 8);
    // Too few pages in the document.
    assert!(find_repeated_lines(&lines, 2).is_empty());
    assert_eq!(strip_repeated_lines(&lines, 2, |_| true), vec![0, 1, 2, 3, 4, 5, 6, 7]);
    // Three in ten of forty pages are twelve.
    assert!(find_repeated_lines(&lines, 40).is_empty());
}

#[test]
fn list_items_are_no_running_headers() {
    let lines = vec![
        edge("- repeated item", 1, 0),
        edge("- repeated item", 2, 0),
        edge("- repeated item", 3, 0),
    ];
    assert!(find_repeated_lines(&lines, 3).is_empty());
}

fn cap(text: &str, page: u32, is_large: bool) -> CapLine {
    CapLine {
        text: text.to_string(),
        page,
        is_large,
    }
}

#[test]
fn drop_caps_go_in_front_of_their_line() {
    let lines = vec![
        cap("Title", 1, false),
        cap("nce upon a time", 1, false),
        cap("there was", 1, false),
        cap(" O ", 1, true),
        cap("Another page", 2, false),
        cap("X", 2, false),
    ];
    let (kept, merges) = merge_drop_caps(&lines);
    assert_eq!(kept, vec![0, 1, 2, 4, 5]);
    assert_eq!(merges, vec![(1, 'O')]);
}

#[test]
fn a_drop_cap_without_a_line_is_taken_out() {
    let lines = vec![cap("Text", 1, false), cap("A", 1, true), cap("a", 1, true)];
    let (kept, merges) = merge_drop_caps(&lines);
    assert_eq!(kept, vec![0, 2]);
    assert!(merges.is_empty());
}

#[test]
fn a_line_gets_one_capital_only() {
    let lines = vec![
        cap("irst", 1, false),
        cap("econd", 1, false),
        cap("F", 1, true),
        cap("S", 1, true),
    ];
    let (kept, merges) = merge_drop_caps(&lines);
    assert_eq!(kept, vec![0, 1]);
    assert_eq!(merges, vec![(0, 'F'), (1, 'S')]);
}

#[test]
fn headings_over_several_lines_are_joined() {
    let line = |page: u32, level: Option<u8>| HeadingLine { page, level };
    let lines = vec![
        line(1, Some(1)),
        line(1, Some(1)),
        line(1, Some(1)),
        line(1, Some(2)),
        line(1, None),
        line(1, None),
        line(2, Some(1)),
    ];
    let starts = merge_heading_lines(&lines, |_, _| true);
    assert_eq!(starts, vec![true, false, false, true, true, true, true]);
    // The third line is too far from the first.
    let starts = merge_heading_lines(&lines, |head, i| i - head < 2);
    assert_eq!(starts, vec![true, false, true, true, true, true, true]);
}

#[test]
fn edges_are_fifteen_percent_of_the_range() {
    assert!(is_edge_line(100, 100, 1100) && is_edge_line(1100, 100, 1100));
    assert!(is_edge_line(250, 100, 1100) && is_edge_line(950, 100, 1100));
    assert!(!is_edge_line(251, 100, 1100) && !is_edge_line(949, 100, 1100));
    assert!(is_edge_line(5, 5, 5));
    assert!(is_edge_line(i64::MIN, i64::MIN, i64::MAX) && !is_edge_line(0, i64::MIN, i64::MAX));
}
