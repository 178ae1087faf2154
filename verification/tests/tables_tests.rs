use kreuzberg::tables::{
    fix_vertical_header_text, has_enough_filled_cells, join_cell_words, place_cells_in_grid,
    render_grid_as_markdown, table_crop_size,
};

fn grid(rows: &[&[&str]]) -> Vec<Vec<String>> {
    rows.iter().map(|r| r.iter().map(|c| c.to_string()).collect()).collect()
}

#[test]
fn vertical_header_is_reversed() {
    assert_eq!(fix_vertical_header_text("y t i r o h t u A"), "Authority");
    assert_eq!(fix_vertical_header_text("a b"), "a b");
    assert_eq!(fix_vertical_header_text("one two three"), "one two three");
    // 3 of 4 tokens single characters is 75% > 70%.
    assert_eq!(fix_vertical_header_text(" c b a dd "), "ddabc");
    // 7 of 10 is exactly 70%: not vertical.
    assert_eq!(fix_vertical_header_text("a b c d e f g hh ii jj"), "a b c d e f g hh ii jj");
    // Non-ASCII single characters count as single characters.
    assert_eq!(fix_vertical_header_text("ü b a"), "abü");
    assert_eq!(fix_vertical_header_text("g n u n h c e R"), "Rechnung");
}

#[test]
fn grid_renders_as_markdown_table() {
    let g = grid(&[&["Name", "Qty"], &["a|b", "<1>"], &["x"]]);
    assert_eq!(
        render_grid_as_markdown(&g),
        "| Name | Qty |\n| --- | --- |\n| a\\|b | &lt;1&gt; |\n| x |  |"
    );
}

#[test]
fn empty_grids_render_nothing() {
    assert_eq!(render_grid_as_markdown(&[]), "");
    assert_eq!(render_grid_as_markdown(&[vec![], vec![]]), "");
}

#[test]
fn grid_cells_are_trimmed_and_headers_fixed() {
    let g = grid(&[&["  l a t o T ", " x_y "]]);
    assert_eq!(render_grid_as_markdown(&g), "| Total | x\\_y |\n| --- | --- |");
}

#[test]
fn cell_words_join_trimmed_nonblank() {
    assert_eq!(join_cell_words(&[" a ", "", "  ", "b"]), "a b");
    assert_eq!(join_cell_words(&[]), "");
}

#[test]
fn sparse_tables_are_rejected() {
    let dense = grid(&[&["a", "b"], &["c", ""]]);
    assert!(has_enough_filled_cells(&dense, 2, 2));
    let sparse = grid(&[&["a", "", ""], &["", "", ""], &["", " ", ""]]);
    assert!(!has_enough_filled_cells(&sparse, 3, 3));
    // Six cells: a quarter rounds down to one, so one filled cell is enough.
    let six = grid(&[&["a", "", ""], &["", "", ""]]);
    assert!(has_enough_filled_cells(&six, 2, 3));
    let quarter = grid(&[&["a", "b", "", ""], &["", "", "", ""]]);
    assert!(has_enough_filled_cells(&quarter, 2, 4));
}

#[test]
fn cells_are_placed_relative_to_first_row_and_column() {
    let cells = vec![(3, 5), (3, 6), (4, 5), (4, 6), (4, 6)];
    let texts: Vec<String> = ["a", "b", "c", "d", "e"].iter().map(|s| s.to_string()).collect();
    let g = place_cells_in_grid(&cells, 9, 9, &texts);
    assert_eq!(g, grid(&[&["a", "b"], &["c", "e"]]));
    let clipped = place_cells_in_grid(&cells, 1, 1, &texts);
    assert_eq!(clipped, grid(&[&["a"]]));
    assert!(place_cells_in_grid(&[], 2, 2, &[]).is_empty());
}

#[test]
fn table_crops_too_small_or_too_large_are_refused() {
    assert_eq!(table_crop_size(10, 20, 110, 70), Some((100, 50)));
    assert_eq!(table_crop_size(10, 20, 19, 70), None);
    assert_eq!(table_crop_size(50, 20, 10, 70), None);
    assert_eq!(table_crop_size(0, 0, 2000, 2000), Some((2000, 2000)));
    assert_eq!(table_crop_size(0, 0, 2001, 2000), None);
    assert_eq!(table_crop_size(0, 0, u32::MAX, u32::MAX), None);
}
