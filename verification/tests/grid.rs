use sdf_tiles::grid::{
    tile_index, TileView, MAX_FUNCTIONS, PANEL_HEIGHT, PANEL_WIDTH, TILE_COUNT,
};

#[test]
fn grid_is_sixteen_by_sixteen() {
    assert_eq!(PANEL_WIDTH, 16);
    assert_eq!(PANEL_HEIGHT, 16);
    assert_eq!(TILE_COUNT, 256);
    assert_eq!(MAX_FUNCTIONS, 100);
}

#[test]
fn tile_index_is_column_plus_row_times_width() {
    assert_eq!(tile_index(0, 0), 0);
    assert_eq!(tile_index(15, 0), 15);
    assert_eq!(tile_index(0, 1), 16);
    assert_eq!(tile_index(3, 2), 35);
    assert_eq!(tile_index(15, 15), 255);
}

#[test]
fn tile_index_numbers_every_tile_once() {
    let mut seen = vec![false; TILE_COUNT];
    for y in 0..PANEL_HEIGHT {
        for x in 0..PANEL_WIDTH {
            let i = tile_index(x, y);
            assert_eq!(i % PANEL_WIDTH, x);
            assert_eq!(i / PANEL_WIDTH, y);
            assert!(!seen[i]);
            seen[i] = true;
        }
    }
    assert!(seen.iter().all(|s| *s));
}

#[test]
fn view_needs_one_centre_per_tile() {
    assert!(TileView::new(vec![(0, 0); 255], 10).is_none());
    assert!(TileView::new(vec![(0, 0); 257], 10).is_none());
    assert!(TileView::new(Vec::new(), 10).is_none());
    let v = TileView::new(vec![(7, -3); 256], 10).unwrap();
    assert_eq!(v.center(0), (7, -3));
    assert_eq!(v.center(255), (7, -3));
    assert_eq!(v.max_dist_sq(), 10);
}

#[test]
fn view_keeps_centres_by_tile_number() {
    let centers: Vec<(i32, i32)> = (0..256).map(|i| (i, -i)).collect();
    let v = TileView::new(centers, -1).unwrap();
    assert_eq!(v.center(17), (17, -17));
    assert_eq!(v.max_dist_sq(), -1);
}
