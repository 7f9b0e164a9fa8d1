use pdf_inspector::tables::{
    assign_items_to_grid, cluster_rects, cluster_x_positions, detect_merged_cluster_table,
    detect_row_stripe_table, detect_table_from_rect_group, detect_tables_from_rects,
    extract_hint_region, is_row_stripe_pattern, propagate_merged_cells, select_by_median,
    snap_edges, try_build_grid, Cluster, GridItem, GridRect, Sheet, Stripes, Table,
};
use pdf_inspector::union_find::UnionFind;

#[test]
fn sets_are_joined() {
    let mut sets = UnionFind::new(6);
    assert_ne!(sets.find(0), sets.find(1));
    sets.union(0, 1);
    sets.union(2, 3);
    sets.union(1, 3);
    let root = sets.find(0);
    assert_eq!(root, 0);
    for i in 0..4 {
        assert_eq!(sets.find(i), root);
    }
    assert_eq!(sets.find(4), 4);
    sets.union(5, 0);
    assert_eq!(sets.find(5), 0);
}

#[test]
fn overlapping_rectangles_form_clusters() {
    let overlaps = vec![(0, 1), (3, 4), (1, 2)];
    assert_eq!(
        cluster_rects(6, &overlaps, 2),
        vec![vec![0, 1, 2], vec![3, 4]]
    );
    assert_eq!(cluster_rects(6, &overlaps, 3), vec![vec![0, 1, 2]]);
    assert_eq!(cluster_rects(2, &vec![], 1), vec![vec![0], vec![1]]);
    assert_eq!(cluster_rects(2, &vec![], 0), vec![vec![0], vec![1]]);
    assert!(cluster_rects(0, &vec![], 1).is_empty());
}

fn item(x: f32, y: f32, text: &str, col_edges: &[f32], row_edges: &[f32]) -> GridItem {
    GridItem {
        page: 1,
        x: x.to_bits(),
        y: y.to_bits(),
        text: text.to_string(),
        in_cols: col_edges
            .windows(2)
            .map(|e| x >= e[0] - 2.0 && x <= e[1] + 2.0)
            .collect(),
        in_rows: row_edges
            .windows(2)
            .map(|e| y >= e[1] - 2.0 && y <= e[0] + 2.0)
            .collect(),
    }
}

#[test]
fn cells_are_read_from_top_to_bottom() {
    let cols = [-10.0, 100.0, 200.0];
    let rows = [710.0, 650.0, 600.0];
    let place = |x, y, text| item(x, y, text, &cols, &rows);
    let mut items = vec![
        place(20.0, 700.0, "b "),
        place(10.0, 700.0, " a"),
        place(10.0, 690.0, "c"),
        place(-5.0, 700.0, "first"),
        place(30.0, 700.0, "  "),
        place(150.0, 640.0, "d"),
        // On the edge between two cells the first one counts.
        place(101.0, 649.0, "edge"),
        place(500.0, 700.0, "outside"),
        place(20.0, 700.0, "other page"),
    ];
    items[8].page = 2;
    let (cells, taken) = assign_items_to_grid(&items, 1, 2, 2);
    assert_eq!(
        cells,
        grid(&[&["first a b c edge", ""], &["", "d"]])
    );
    assert_eq!(taken, vec![0, 1, 2, 3, 4, 5, 6]);
}

fn grid(rows: &[&[&str]]) -> Vec<Vec<String>> {
    rows.iter()
        .map(|r| r.iter().map(|c| c.to_string()).collect())
        .collect()
}

fn over(is_background: bool, cols: &[bool], rows: &[bool]) -> GridRect {
    GridRect {
        is_background,
        over_cols: cols.to_vec(),
        over_rows: rows.to_vec(),
    }
}

#[test]
fn merged_cells_go_into_the_first_row() {
    let (t, f) = (true, false);
    let start = grid(&[&["a", "x"], &[" b ", "y"], &["", "z"], &["c", "w"]]);
    let mut cells = start.clone();
    propagate_merged_cells(&mut cells, &vec![over(false, &[t, f], &[t, t, t, f])], 4, 2);
    assert_eq!(cells, grid(&[&["a b", "x"], &["", "y"], &["", "z"], &["c", "w"]]));
    let rects = vec![over(false, &[f, t], &[f, f, t, t]), over(false, &[t, f], &[t, t, t, t])];
    propagate_merged_cells(&mut cells, &rects, 4, 2);
    assert_eq!(cells, grid(&[&["a b c", "x"], &["", "y"], &["", "z w"], &["", ""]]));
    // Backgrounds, and rectangles in one row, merge nothing.
    let mut cells = start.clone();
    let rects = vec![over(true, &[t, t], &[t, t, t, t]), over(false, &[t, t], &[f, t, f, f])];
    propagate_merged_cells(&mut cells, &rects, 4, 2);
    assert_eq!(cells, start);
}

/// A grid with one text in each cell that is given, and one rectangle over each cell.
fn sheet(rows: &[&[&str]]) -> Sheet {
    let (h, w) = (rows.len(), rows[0].len());
    let col_edges: Vec<f32> = (0..=w).map(|c| c as f32 * 50.0).collect();
    let row_edges: Vec<f32> = (0..=h).map(|r| 700.0 - r as f32 * 20.0).collect();
    let mut items = vec![];
    let mut rects = vec![];
    for r in 0..h {
        for c in 0..w {
            if !rows[r][c].is_empty() {
                let x = c as f32 * 50.0 + 25.0;
                let y = 690.0 - r as f32 * 20.0;
                items.push(item(x, y, rows[r][c], &col_edges, &row_edges));
            }
            let cols: Vec<bool> = (0..w).map(|k| k == c).collect();
            let lines: Vec<bool> = (0..h).map(|k| k == r).collect();
            rects.push(over(false, &cols, &lines));
        }
    }
    Sheet {
        columns: col_edges.windows(2).map(|e| ((e[0] + e[1]) / 2.0).to_bits()).collect(),
        rows: row_edges.windows(2).map(|e| ((e[0] + e[1]) / 2.0).to_bits()).collect(),
        items,
        rects,
    }
}

fn cells_of(table: Option<Table>) -> Option<Vec<Vec<String>>> {
    table.map(|t| t.cells)
}

#[test]
fn grids_are_accepted_by_their_content() {
    let good: &[&[&str]] = &[&["a", "b"], &["c", ""], &["", ""], &["", ""]];
    let table = try_build_grid(&sheet(good), 1, false).unwrap();
    assert_eq!(table.cells, grid(good));
    assert_eq!(table.item_indices, vec![0, 1, 2]);
    assert_eq!(table.columns, vec![25.0f32.to_bits(), 75.0f32.to_bits()]);
    assert_eq!(table.rows[3], 630.0f32.to_bits());
    // Nothing on another page.
    assert!(try_build_grid(&sheet(good), 2, false).is_none());
    // Too few rows, columns, or too many.
    assert!(try_build_grid(&sheet(&[&["a", "b"], &["c", "d"]]), 1, false).is_none());
    assert!(try_build_grid(&sheet(&[&["a"], &["b"], &["c"]]), 1, false).is_none());
    let wide = ["x"; 26];
    assert!(try_build_grid(&sheet(&[&wide, &wide, &wide]), 1, false).is_none());
    assert!(try_build_grid(&sheet(&[&wide[1..], &wide[1..], &wide[1..]]), 1, false).is_some());
    // One row with text only.
    assert!(try_build_grid(&sheet(&[&["a", "b"], &["", " "], &["", ""]]), 1, false).is_none());
    // A blank column.
    assert!(try_build_grid(&sheet(&[&["a", ""], &["b", ""], &["c", ""]]), 1, false).is_none());
    // Less than a quarter of the cells.
    let sparse = sheet(&[&["a", ""], &["", "b"], &["", ""], &["", ""], &["", ""]]);
    assert!(try_build_grid(&sparse, 1, false).is_none());
    // The strict rule asks for two cells in five, and refuses paragraphs.
    assert!(try_build_grid(&sheet(good), 1, true).is_none());
    let short = "x".repeat(200);
    assert!(try_build_grid(&sheet(&[&["a", &short], &["b", "c"], &["d", ""]]), 1, true).is_some());
    let long = "x".repeat(201);
    assert!(try_build_grid(&sheet(&[&["a", &long], &["b", "c"], &["d", ""]]), 1, true).is_none());
}

#[test]
fn grids_need_rectangles() {
    let mut bare = sheet(&[&["a", "b"], &["c", "d"], &["e", "f"], &["g", "h"], &["i", "j"]]);
    bare.rects.truncate(3);
    assert!(try_build_grid(&bare, 1, false).is_some());
    bare.rects.truncate(2);
    assert!(try_build_grid(&bare, 1, false).is_none());
    // Rows with columns from the text do not.
    bare.rects.clear();
    assert!(detect_merged_cluster_table(&bare, 1).is_some());
    let rows = sheet(&[&["a", ""], &["", "b"], &["c", "d"], &["", ""], &["", ""]]);
    assert!(detect_merged_cluster_table(&rows, 1).is_some());
    let rows = sheet(&[&["a", ""], &["", "b"], &["c", ""], &["", ""], &["", ""]]);
    assert!(detect_merged_cluster_table(&rows, 1).is_none());
    let rows = sheet(&[&["a", "b"], &["c", "d"], &["e", "f"]]);
    let stripes = |are_stripes| Stripes { are_stripes, sheet: rows.clone() };
    assert!(detect_row_stripe_table(&stripes(true), 1).is_some());
    assert!(detect_row_stripe_table(&stripes(false), 1).is_none());
}

#[test]
fn backgrounds_are_taken_out_of_large_grids() {
    let (t, f) = (true, false);
    let texts: Vec<[&str; 2]> = vec![["a", "b"]; 11];
    let rows: Vec<&[&str]> = texts.iter().map(|r| &r[..]).collect();
    let mut bare = sheet(&rows);
    // With the margin column of the background there is no table.
    let margin: Vec<[&str; 3]> = vec![["", "a", "b"]; 11];
    let with_margin: Vec<&[&str]> = margin.iter().map(|r| &r[..]).collect();
    let whole = sheet(&with_margin);
    assert!(detect_table_from_rect_group(&whole, &bare, 1).is_none());
    bare.rects.push(over(true, &[t, t], &[t; 11]));
    let found = cells_of(detect_table_from_rect_group(&whole, &bare, 1)).unwrap();
    assert_eq!(found.len(), 11);
    assert_eq!(found[10], vec!["a".to_string(), "b".to_string()]);
    // Ten rows are too few for a second attempt.
    let mut small = sheet(&rows[1..]);
    small.rects.push(over(true, &[t, f], &[t; 10]));
    let whole = sheet(&with_margin[1..]);
    assert!(detect_table_from_rect_group(&whole, &small, 1).is_none());
}

fn no_sheet() -> Sheet {
    Sheet {
        columns: vec![],
        rows: vec![],
        items: vec![],
        rects: vec![],
    }
}

fn cluster(size: usize, whole: Sheet) -> Cluster {
    Cluster {
        size,
        whole,
        bare: no_sheet(),
        stripes: Stripes {
            are_stripes: false,
            sheet: no_sheet(),
        },
    }
}

#[test]
fn tables_are_searched_in_turn() {
    let narrow = sheet(&[&["a", "b"], &["c", "d"], &["e", "f"]]);
    let wide = sheet(&[&["a", "b", "c", "d"], &["e", "f", "g", "h"], &["i", "j", "k", "l"]]);
    let none = || Stripes {
        are_stripes: true,
        sheet: no_sheet(),
    };
    let columns = |found: &(Vec<Table>, bool)| -> Vec<usize> {
        found.0.iter().map(|t| t.columns.len()).collect()
    };
    // The tables of the clusters.
    let clusters = vec![cluster(20, narrow.clone()), cluster(20, wide.clone()), cluster(9, no_sheet())];
    let found = detect_tables_from_rects(49, &clusters, &wide, &none(), 1);
    assert_eq!(columns(&found), vec![2, 4]);
    assert!(!found.1);
    // Narrow tables are replaced where there are enough rectangles.
    let clusters = vec![cluster(20, narrow.clone()), cluster(20, no_sheet()), cluster(9, no_sheet())];
    let found = detect_tables_from_rects(49, &clusters, &wide, &none(), 1);
    assert_eq!(columns(&found), vec![2]);
    let clusters = vec![cluster(20, narrow.clone()), cluster(20, no_sheet()), cluster(10, no_sheet())];
    let found = detect_tables_from_rects(50, &clusters, &wide, &none(), 1);
    assert_eq!(columns(&found), vec![4]);
    // They stay where the clusters together are no table.
    let found = detect_tables_from_rects(50, &clusters, &no_sheet(), &none(), 1);
    assert_eq!(columns(&found), vec![2]);
    // Without clusters at least 15 rectangles may be stripes.
    let texts: Vec<[&str; 2]> = vec![["a", "b"]; 10];
    let rows: Vec<&[&str]> = texts.iter().map(|r| &r[..]).collect();
    let ten = Stripes { are_stripes: true, sheet: sheet(&rows) };
    let nine = Stripes { are_stripes: true, sheet: sheet(&rows[1..]) };
    let found = detect_tables_from_rects(15, &vec![], &no_sheet(), &ten, 1);
    assert_eq!(columns(&found), vec![2]);
    assert!(detect_tables_from_rects(14, &vec![], &no_sheet(), &ten, 1).0.is_empty());
    assert!(detect_tables_from_rects(15, &vec![], &no_sheet(), &nine, 1).0.is_empty());
    // Four to six rectangles are a hint.
    for (n, hints) in [(3, false), (4, true), (6, true), (7, false)] {
        let found = detect_tables_from_rects(n, &vec![], &no_sheet(), &none(), 1);
        assert!(found.0.is_empty());
        assert_eq!(found.1, hints);
    }
}

fn bits(values: &[f32]) -> Vec<u32> {
    values.iter().map(|v| v.to_bits()).collect()
}

#[test]
fn near_edges_are_snapped() {
    let near = |a: u32, b: u32| (f32::from_bits(a) - f32::from_bits(b)).abs() <= 6.0;
    assert_eq!(
        snap_edges(&bits(&[100.0, 0.0, 5.0, 106.5, 10.0, -3.0]), near),
        bits(&[-3.0, 5.0, 100.0, 106.5])
    );
    assert!(snap_edges(&vec![], near).is_empty());
}

#[test]
fn rectangles_are_held_to_their_median() {
    let fits = |v: u32, m: u32| f32::from_bits(v) <= f32::from_bits(m) * 10.0;
    let widths = bits(&[10.0, 20.0, 30.0, 301.0, 300.0, 5.0]);
    assert_eq!(select_by_median(&widths, fits), vec![0, 1, 2, 4, 5]);
    assert_eq!(select_by_median(&bits(&[1.0, 1.0, 500.0]), fits), vec![0, 1, 2]);
    let cells = |v: u32, m: u32| f32::from_bits(v) <= f32::from_bits(m) * 4.0;
    assert_eq!(extract_hint_region(&bits(&[10.0, 50.0, 11.0, 12.0]), cells), Some(vec![0, 2, 3]));
    assert_eq!(extract_hint_region(&bits(&[1.0]), cells), None);
    assert_eq!(extract_hint_region(&bits(&[1.0; 9]), cells), None);
    let alike = |w: u32, m: u32| {
        (f32::from_bits(w) - f32::from_bits(m)).abs() <= f32::from_bits(m) * 0.10
    };
    assert!(is_row_stripe_pattern(&bits(&[400.0, 410.0, 395.0, 400.0, 10.0]), alike));
    assert!(!is_row_stripe_pattern(&bits(&[400.0, 410.0, 395.0, 10.0]), alike));
    assert!(!is_row_stripe_pattern(&bits(&[200.0, 200.0, 200.0]), alike));
    assert!(!is_row_stripe_pattern(&bits(&[400.0, 400.0]), alike));
}

#[test]
fn columns_need_texts() {
    assert_eq!(cluster_x_positions(&vec![10, 1, 3], 14), vec![0, 2]);
    assert_eq!(cluster_x_positions(&vec![20, 2, 5], 60), vec![0, 2]);
    assert!(cluster_x_positions(&vec![], 60).is_empty());
}
