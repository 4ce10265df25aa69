use sdf_tiles::grid::TileView;
use sdf_tiles::index::{Neighbor, SpatialIndex};
use sdf_tiles::select::{choose_for_tile, select, select_tile, Assignment};

fn near(object: usize, dist_sq: i128) -> Neighbor {
    Neighbor { object, dist_sq }
}

#[test]
fn tile_without_candidates_accepts_nothing() {
    assert_eq!(select_tile(&Vec::new(), 100), Vec::<usize>::new());
}

#[test]
fn tile_accepts_up_to_the_cutoff() {
    let c = vec![near(4, 0), near(2, 9), near(7, 10), near(1, 11), near(3, 50)];
    assert_eq!(select_tile(&c, 10), vec![4, 2, 7]);
    assert_eq!(select_tile(&c, 9), vec![4, 2]);
    assert_eq!(select_tile(&c, 11), vec![4, 2, 7, 1]);
    assert_eq!(select_tile(&c, 1000), vec![4, 2, 7, 1, 3]);
}

#[test]
fn tile_stops_at_the_first_candidate_beyond_the_cutoff() {
    let c = vec![near(0, 1), near(1, 20), near(2, 2)];
    assert_eq!(select_tile(&c, 5), vec![0]);
}

#[test]
fn negative_cutoff_accepts_nothing() {
    let c = vec![near(0, 0), near(1, 1)];
    assert_eq!(select_tile(&c, -1), Vec::<usize>::new());
}

#[test]
fn tile_accepts_at_most_a_hundred() {
    let c: Vec<Neighbor> = (0..150).map(|i| near(i, i as i128)).collect();
    let out = select_tile(&c, 1_000_000);
    assert_eq!(out, (0..100).collect::<Vec<usize>>());
    let c: Vec<Neighbor> = (0..100).map(|i| near(i, 3)).collect();
    assert_eq!(select_tile(&c, 3).len(), 100);
    let c: Vec<Neighbor> = (0..101).map(|i| near(i, 3)).collect();
    assert_eq!(select_tile(&c, 3).len(), 100);
}

#[test]
fn choice_is_nearest_first_within_cutoff() {
    let index = SpatialIndex::build(&vec![(5, 0), (0, 3), (100, 100), (-1, 0), (0, -4)]);
    assert_eq!(choose_for_tile(&index, 0, 0, 25), vec![3, 1, 4, 0]);
    assert_eq!(choose_for_tile(&index, 0, 0, 24), vec![3, 1, 4]);
    assert_eq!(choose_for_tile(&index, 0, 0, 0), Vec::<usize>::new());
    assert_eq!(choose_for_tile(&index, 100, 100, 0), vec![2]);
}

#[test]
fn no_accepted_pair_lies_beyond_the_cutoff() {
    let positions: Vec<(i32, i32)> = (0..400).map(|i| ((i * 37) % 200 - 100, (i * 91) % 200 - 100)).collect();
    let index = SpatialIndex::build(&positions);
    let centers: Vec<(i32, i32)> = (0..256).map(|t| ((t % 16) * 12 - 90, (t / 16) * 12 - 90)).collect();
    let cutoff: i128 = 20 * 20;
    let view = TileView::new(centers.clone(), cutoff).unwrap();
    let a = select(&index, &view);
    let tiles = a.tiles();
    assert_eq!(tiles.len(), 256);
    for (t, list) in tiles.iter().enumerate() {
        assert!(list.len() <= 100);
        let (qx, qy) = centers[t];
        let d = |o: usize| {
            let dx = (positions[o].0 - qx) as i128;
            let dy = (positions[o].1 - qy) as i128;
            dx * dx + dy * dy
        };
        for w in list.windows(2) {
            assert!(d(w[0]) <= d(w[1]));
        }
        for &o in list {
            assert!(d(o) <= cutoff);
        }
        let within = (0..positions.len()).filter(|&o| d(o) <= cutoff).count();
        assert_eq!(list.len(), within.min(100));
        let mut sorted = list.clone();
        sorted.sort();
        sorted.dedup();
        assert_eq!(sorted.len(), list.len());
    }
}

#[test]
fn full_tile_keeps_the_nearest() {
    let positions: Vec<(i32, i32)> = (0..150).map(|i| (i + 1, 0)).collect();
    let index = SpatialIndex::build(&positions);
    let out = choose_for_tile(&index, 0, 0, 1_000_000);
    assert_eq!(out, (0..100).collect::<Vec<usize>>());
}

#[test]
fn assignment_needs_one_short_list_per_tile() {
    assert!(Assignment::new(vec![Vec::new(); 255]).is_none());
    assert!(Assignment::new(vec![Vec::new(); 257]).is_none());
    let mut tiles = vec![Vec::new(); 256];
    tiles[9] = vec![0; 101];
    assert!(Assignment::new(tiles.clone()).is_none());
    tiles[9] = vec![0; 100];
    let a = Assignment::new(tiles.clone()).unwrap();
    assert_eq!(a.tiles(), &tiles);
}

#[test]
fn assignment_fits_a_scene_that_holds_every_named_object() {
    let mut tiles = vec![Vec::new(); 256];
    tiles[0] = vec![3, 1];
    tiles[255] = vec![7];
    let a = Assignment::new(tiles).unwrap();
    assert!(a.fits(8));
    assert!(a.fits(1000));
    assert!(!a.fits(7));
    assert!(!a.fits(0));
    let none = Assignment::new(vec![Vec::new(); 256]).unwrap();
    assert!(none.fits(0));
}
