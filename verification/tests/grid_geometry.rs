use tile_clerk::{
    cell_from_point, cell_rect, horizontal_grid_lines, is_in_bounds, select_cell,
    vertical_grid_lines, TileMetadata, TilesetConfiguration, TilesetInformation,
};

fn cfg(rows: i32, columns: i32, w: i32, h: i32) -> TilesetConfiguration {
    TilesetConfiguration { rows, columns, tile_width_px: w, tile_height_px: h }
}

#[test]
fn cell_corner_maps_to_its_cell() {
    let c = cfg(3, 3, 16, 16);
    assert_eq!(cell_from_point(0, 0, &c), (0, 0));
    assert_eq!(cell_from_point(16, 0, &c), (1, 0));
    assert_eq!(cell_from_point(32, 16, &c), (2, 1));
    let wide = cfg(7, 9, 5, 11);
    assert_eq!(cell_from_point(4 * 5, 6 * 11, &wide), (4, 6));
}

#[test]
fn interior_pixel_maps_to_its_cell() {
    let c = cfg(2, 2, 16, 16);
    assert_eq!(cell_from_point(20, 5, &c), (1, 0));
    assert_eq!(cell_from_point(15, 15, &c), (0, 0));
}

#[test]
fn negative_pointer_is_never_in_bounds() {
    let c = cfg(4, 4, 16, 16);
    let (col, row) = cell_from_point(-5, 3, &c);
    assert_eq!((col, row), (-1, 0));
    assert!(!is_in_bounds(col, row, &c));
    let (col2, row2) = cell_from_point(3, -1, &c);
    assert_eq!((col2, row2), (0, -1));
    assert!(!is_in_bounds(col2, row2, &c));
    let (col3, row3) = cell_from_point(-16, -17, &c);
    assert_eq!((col3, row3), (-1, -2));
    assert!(!is_in_bounds(col3, row3, &c));
}

#[test]
fn grid_line_counts() {
    let c = cfg(2, 3, 16, 16);
    let vertical = vertical_grid_lines(&c);
    let horizontal = horizontal_grid_lines(&c);
    assert_eq!(vertical.len(), 4);
    assert_eq!(horizontal.len(), 3);
}

#[test]
fn grid_line_positions() {
    let c = cfg(2, 3, 16, 8);
    let vertical = vertical_grid_lines(&c);
    let l = &vertical[2];
    assert_eq!((l.x1, l.y1, l.x2, l.y2), (32, 0, 32, 16));
    let horizontal = horizontal_grid_lines(&c);
    let m = &horizontal[1];
    assert_eq!((m.x1, m.y1, m.x2, m.y2), (0, 8, 48, 8));
}

#[test]
fn cell_rect_spans_one_tile() {
    let c = cfg(4, 4, 16, 8);
    let r = cell_rect(1, 2, &c);
    assert_eq!((r.min_x, r.min_y, r.max_x, r.max_y), (16, 16, 32, 24));
}

#[test]
fn in_bounds_click_selects_and_confirms() {
    let c = cfg(2, 2, 16, 16);
    let mut selected = TileMetadata { name: String::new(), x: 0, y: 0 };
    let accepted = select_cell(&mut selected, 20, 5, &c);
    assert!(accepted);
    assert_eq!(selected.x, 1);
    assert_eq!(selected.y, 0);
    assert_eq!(selected.name.as_str(), "");
    selected.name = String::from("grass");
    let mut store = TilesetInformation::default();
    store.append(selected.clone());
    let records = store.all();
    assert_eq!(records.len(), 1);
    assert_eq!(records[0].name.as_str(), "grass");
    assert_eq!(records[0].x, 1);
    assert_eq!(records[0].y, 0);
}

#[test]
fn out_of_bounds_click_keeps_prior_selection() {
    let c = cfg(2, 2, 16, 16);
    let mut selected = TileMetadata { name: String::from("kept"), x: 1, y: 1 };
    let accepted = select_cell(&mut selected, 40, 5, &c);
    assert!(!accepted);
    assert_eq!(selected.name.as_str(), "kept");
    assert_eq!(selected.x, 1);
    assert_eq!(selected.y, 1);
}
