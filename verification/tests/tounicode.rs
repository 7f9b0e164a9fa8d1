use pdf_inspector::tounicode::{hex_to_unicode_string, parse_hex_u16, parse_hex_u32, ToUnicodeCMap};

#[test]
fn test_parse_bfchar_2byte() {
    let cmap_content = r#"
/CIDInit /ProcSet findresource begin
12 dict begin
begincmap
1 begincodespacerange
<0000><FFFF>
endcodespacerange
3 beginbfchar
<0003> <0020>
<0024> <0041>
<0025> <0042>
endbfchar
endcmap
"#;
    let cmap = ToUnicodeCMap::parse(cmap_content.as_bytes()).unwrap();

    assert_eq!(cmap.code_byte_length, 2);
    assert_eq!(cmap.lookup(0x0003), Some(" ".to_string()));
    assert_eq!(cmap.lookup(0x0024), Some("A".to_string()));
    assert_eq!(cmap.lookup(0x0025), Some("B".to_string()));
}

#[test]
fn test_parse_bfchar_1byte() {
    // The codespace is <0000><FFFF>,
    // but all source codes are 1-byte hex (e.g., <20>, <41>)
    let cmap_content = r#"
1 begincodespacerange
<0000> <FFFF>
endcodespacerange
3 beginbfchar
<20> <0020>
<41> <0041>
<42> <0042>
endbfchar
"#;
    let cmap = ToUnicodeCMap::parse(cmap_content.as_bytes()).unwrap();

    // Should detect as 1-byte because all source codes are 1-byte hex
    assert_eq!(cmap.code_byte_length, 1);
    assert_eq!(cmap.lookup(0x0020), Some(" ".to_string()));
    assert_eq!(cmap.lookup(0x0041), Some("A".to_string()));
}

#[test]
fn test_decode_cids_2byte() {
    let cmap_content = r#"
1 begincodespacerange
<0000><FFFF>
endcodespacerange
3 beginbfchar
<0003> <0020>
<0024> <0041>
<0025> <0042>
endbfchar
"#;
    let cmap = ToUnicodeCMap::parse(cmap_content.as_bytes()).unwrap();

    // "AB " in 2-byte CID encoding
    let cids = [0x00, 0x24, 0x00, 0x25, 0x00, 0x03];
    assert_eq!(cmap.decode_cids(&cids), "AB ");
}

#[test]
fn test_decode_cids_1byte_no_cjk_garbage() {
    // Simulates the bug: CMap with 1-byte source codes
    let cmap_content = r#"
1 begincodespacerange
<0000> <FFFF>
endcodespacerange
5 beginbfchar
<20> <0020>
<42> <0042>
<79> <0079>
<50> <0050>
<52> <0052>
endbfchar
"#;
    let cmap = ToUnicodeCMap::parse(cmap_content.as_bytes()).unwrap();
    assert_eq!(cmap.code_byte_length, 1);

    // "By" should decode to "By", NOT to CJK character 䉹
    let bytes = [0x42, 0x79];
    let result = cmap.decode_cids(&bytes);
    assert_eq!(result, "By");
    assert!(!result.contains('䉹'), "Should not produce CJK garbage");

    // "PR" should decode to "PR"
    let bytes2 = [0x50, 0x52];
    assert_eq!(cmap.decode_cids(&bytes2), "PR");
}

#[test]
fn test_bfrange_array_format() {
    let cmap_content = r#"
1 begincodespacerange
<0000> <FFFF>
endcodespacerange
1 beginbfrange
<0003> <0005> [<0041> <0042> <0043>]
endbfrange
"#;
    let cmap = ToUnicodeCMap::parse(cmap_content.as_bytes()).unwrap();

    assert_eq!(cmap.lookup(0x0003), Some("A".to_string()));
    assert_eq!(cmap.lookup(0x0004), Some("B".to_string()));
    assert_eq!(cmap.lookup(0x0005), Some("C".to_string()));
}

#[test]
fn test_unmapped_2byte_cids_skipped() {
    let cmap_content = r#"
1 begincodespacerange
<0000><FFFF>
endcodespacerange
1 beginbfchar
<0041> <0041>
endbfchar
"#;
    let cmap = ToUnicodeCMap::parse(cmap_content.as_bytes()).unwrap();
    assert_eq!(cmap.code_byte_length, 2);

    // CID 0x4279 is unmapped - should NOT produce CJK character
    let bytes = [0x42, 0x79];
    let result = cmap.decode_cids(&bytes);
    assert!(
        !result.contains('䉹'),
        "Unmapped 2-byte CIDs should not produce CJK"
    );
}

fn chars(s: &str) -> Vec<char> {
    s.chars().collect()
}

#[test]
fn hex_numbers_allow_spaces_and_a_plus_sign() {
    assert_eq!(parse_hex_u16(&chars(" 00fF ")), Some(0xFF));
    assert_eq!(parse_hex_u16(&chars("+41")), Some(0x41));
    assert_eq!(parse_hex_u16(&chars("10000")), None);
    assert_eq!(parse_hex_u16(&chars("")), None);
    assert_eq!(parse_hex_u16(&chars("4g")), None);
    assert_eq!(parse_hex_u32(&chars("10000")), Some(0x10000));
    assert_eq!(parse_hex_u32(&chars("FFFFFFFF")), Some(0xFFFF_FFFF));
    assert_eq!(parse_hex_u32(&chars("100000000")), None);
}

#[test]
fn destinations_are_groups_of_four_digits() {
    assert_eq!(hex_to_unicode_string(&chars("00660069")), Some("fi".to_string()));
    assert_eq!(hex_to_unicode_string(&chars("004100")), Some("A".to_string()));
    assert_eq!(hex_to_unicode_string(&chars("D800")), None);
    assert_eq!(hex_to_unicode_string(&chars("41")), None);
    assert_eq!(hex_to_unicode_string(&chars("zzzz0042")), Some("B".to_string()));
}

#[test]
fn tables_without_mappings_are_refused() {
    assert!(ToUnicodeCMap::parse(b"").is_none());
    assert!(ToUnicodeCMap::parse(b"1 beginbfchar\n<zz> <0041>\nendbfchar").is_none());
    assert!(ToUnicodeCMap::parse(b"1 beginbfchar\n<01> <0041>").is_none());
}

#[test]
fn ranges_count_on_from_their_base() {
    let cmap = ToUnicodeCMap::parse(
        b"2 beginbfrange\n<0020> <0022> <0041>\n<0010> <0012> <0061>\nendbfrange",
    )
    .unwrap();
    assert_eq!(cmap.ranges, vec![(0x10, 0x12, 0x61), (0x20, 0x22, 0x41)]);
    assert_eq!(cmap.lookup(0x11), Some("b".to_string()));
    assert_eq!(cmap.lookup(0x22), Some("C".to_string()));
    assert_eq!(cmap.lookup(0x23), None);
    assert_eq!(cmap.lookup(0x0F), None);
    assert_eq!(cmap.code_byte_length, 2);
}

#[test]
fn a_code_mapped_by_itself_comes_before_a_range() {
    let cmap = ToUnicodeCMap::parse(
        b"1 beginbfchar\n<0021> <0058>\nendbfchar 1 beginbfrange\n<0020> <0022> <0041>\nendbfrange",
    )
    .unwrap();
    assert_eq!(cmap.lookup(0x20), Some("A".to_string()));
    assert_eq!(cmap.lookup(0x21), Some("X".to_string()));
    assert_eq!(cmap.lookup(0x22), Some("C".to_string()));
}

#[test]
fn bases_beyond_unicode_map_nothing() {
    let cmap = ToUnicodeCMap::parse(
        b"1 beginbfrange\n<0000> <FFFF> <FFFFFFFF>\nendbfrange",
    )
    .unwrap();
    assert_eq!(cmap.lookup(0), None);
    assert_eq!(cmap.lookup(1), None);
}

#[test]
fn a_list_is_cut_off_at_the_end_of_its_range() {
    let cmap = ToUnicodeCMap::parse(
        b"2 beginbfrange\n<01> <02> [<0041> <0042> <0043>]\n<05> <05> <0045>\nendbfrange",
    )
    .unwrap();
    assert_eq!(cmap.lookup(1), Some("A".to_string()));
    assert_eq!(cmap.lookup(2), Some("B".to_string()));
    assert_eq!(cmap.lookup(3), None);
    assert_eq!(cmap.lookup(5), Some("E".to_string()));
    assert_eq!(cmap.code_byte_length, 1);
}

#[test]
fn unmapped_single_bytes_stand_for_themselves() {
    let cmap = ToUnicodeCMap::parse(b"2 beginbfchar\n<41> <0061>\n<42> <0062>\nendbfchar").unwrap();
    assert_eq!(cmap.code_byte_length, 1);
    assert_eq!(cmap.decode_cids(b"AB!"), "ab!");
    assert_eq!(cmap.decode_cids(b"AB\x01"), "ab");
    assert_eq!(cmap.decode_cids(b"A!!"), "");
    assert_eq!(cmap.decode_cids(b""), "");
}

#[test]
fn replacement_characters_count_as_unmapped() {
    let cmap = ToUnicodeCMap::parse(
        b"3 beginbfchar\n<0001> <FFFD>\n<0002> <0042>\n<0003> <0043>\nendbfchar",
    )
    .unwrap();
    assert_eq!(cmap.decode_cids(&[0, 1, 0, 2, 0, 3]), "BC");
    assert_eq!(cmap.decode_cids(&[0, 1]), "");
    assert_eq!(cmap.decode_cids(&[0, 2, 0]), "B");
}

#[test]
fn mapped_text_decodes_piece_by_piece() {
    let cmap = ToUnicodeCMap::parse(b"1 beginbfrange\n<0001> <0005> <0041>\nendbfrange").unwrap();
    let whole = cmap.decode_cids(&[0, 1, 0, 2, 0, 3]);
    let pieces = cmap.decode_cids(&[0, 1]) + &cmap.decode_cids(&[0, 2, 0, 3]);
    assert_eq!(whole, "ABC");
    assert_eq!(whole, pieces);
}

#[test]
fn bytes_that_are_no_utf8_do_not_keep_a_table_from_being_read() {
    let mut content = vec![0xFF, 0xFE, b' '];
    content.extend_from_slice(b"1 beginbfchar\n<01> <0041>\nendbfchar");
    let cmap = ToUnicodeCMap::parse(&content).unwrap();
    assert_eq!(cmap.lookup(1), Some("A".to_string()));
}

#[test]
fn the_first_codespace_gives_a_width_of_one_or_two() {
    let cmap = ToUnicodeCMap::parse_text(
        "begincodespacerange <000000> <FFFFFF> endcodespacerange 1 beginbfchar <0001> <0041> endbfchar",
    )
    .unwrap();
    assert_eq!(cmap.code_byte_length, 2);
    let cmap = ToUnicodeCMap::parse_text(
        "begincodespacerange <0000> <FFFF> endcodespacerange 1 beginbfchar <0001> <0041> endbfchar",
    )
    .unwrap();
    assert_eq!(cmap.code_byte_length, 2);
}

#[test]
fn an_empty_table_maps_nothing() {
    let cmap = ToUnicodeCMap::new();
    assert_eq!(cmap.lookup(65), None);
    assert_eq!(cmap.code_byte_length, 0);
    assert!(ToUnicodeCMap::default().ranges.is_empty());
}

#[test]
fn surrogate_pairs_are_one_character() {
    assert_eq!(hex_to_unicode_string(&"D83DDE00".chars().collect::<Vec<_>>()).as_deref(), Some("\u{1F600}"));
}
