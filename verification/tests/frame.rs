use sdf_tiles::buffers::{DrawCall, SDFFunctions};
use sdf_tiles::frame::{sites, update_tiles, FrameOutcome};
use sdf_tiles::grid::{tile_index, TileView};
use sdf_tiles::pack::{PackError, PlacedObject};
use sdf_tiles::shape::{Rgba, SDFObject, SDF};

fn word(x: f32) -> u32 {
    x.to_bits()
}

fn circle_at(x: i32, y: i32) -> PlacedObject {
    PlacedObject {
        site: (x, y),
        pose: [word(x as f32), word(y as f32), word(0.0), word(0.0)],
        object: SDFObject::new(
            SDF::Circle(word(64.0)),
            Rgba::rgb(word(0.0), word(1.0), word(1.0)),
            word(0.0),
        ),
    }
}

/// Centres of a 1280 by 720 view around the origin: cells of 80 by 45.
fn centers() -> Vec<(i32, i32)> {
    let mut c = vec![(0, 0); 256];
    for y in 0..16 {
        for x in 0..16 {
            c[tile_index(x, y)] = (-640 + 80 * x as i32 + 40, -360 + 45 * y as i32 + 22);
        }
    }
    c
}

fn sentinel() -> Vec<u32> {
    vec![
        word(0.0),
        word(f32::NEG_INFINITY),
        word(0.0),
        word(0.0),
        word(1.0),
        word(1.0),
        word(1.0),
        word(1.0),
    ]
}

#[test]
fn sites_are_the_lattice_positions() {
    let objects = vec![circle_at(3, 4), circle_at(-5, 6)];
    assert_eq!(sites(&objects), vec![(3, 4), (-5, 6)]);
    assert_eq!(sites(&Vec::new()), Vec::new());
}

#[test]
fn scene_without_objects_leaves_buffers_unpacked() {
    let mut functions = SDFFunctions::default();
    let view = TileView::new(centers(), 1_000_000).unwrap();
    let r = update_tiles(&mut functions, Some(&view), &Vec::new());
    assert_eq!(r, Ok(FrameOutcome::Retained));
    assert_eq!(functions, SDFFunctions::default());
    assert_eq!(functions.draw_call(), None);
}

#[test]
fn frame_without_accepted_objects_retains_previous_buffers() {
    let mut functions = SDFFunctions::default();
    let view = TileView::new(centers(), 1_000_000).unwrap();
    let objects = vec![circle_at(0, 0)];
    assert_eq!(update_tiles(&mut functions, Some(&view), &objects), Ok(FrameOutcome::Replaced));
    let before = functions.clone();
    assert_eq!(update_tiles(&mut functions, Some(&view), &Vec::new()), Ok(FrameOutcome::Retained));
    assert_eq!(functions, before);
    let far = vec![circle_at(1_000_000, 1_000_000)];
    assert_eq!(update_tiles(&mut functions, Some(&view), &far), Ok(FrameOutcome::Retained));
    assert_eq!(functions, before);
    assert!(functions.draw_call().is_some());
}

#[test]
fn frame_without_camera_is_a_no_op() {
    let mut functions = SDFFunctions::default();
    let objects = vec![circle_at(0, 0)];
    assert_eq!(update_tiles(&mut functions, None, &objects), Ok(FrameOutcome::Retained));
    assert_eq!(functions, SDFFunctions::default());
}

#[test]
fn one_object_at_the_origin_is_seen_from_every_tile() {
    let mut functions = SDFFunctions::default();
    let view = TileView::new(centers(), 1_000_000).unwrap();
    let objects = vec![circle_at(0, 0)];
    let r = update_tiles(&mut functions, Some(&view), &objects);
    assert_eq!(r, Ok(FrameOutcome::Replaced));
    assert_eq!(functions.tile_function_count.len(), 512);
    for t in 0..256 {
        assert_eq!(functions.tile_function_count[2 * t], 1);
        assert_eq!(functions.tile_function_count[2 * t + 1], t as u32);
    }
    assert_eq!(functions.function_indices, vec![0u32; 256]);
    let mut want = vec![
        word(0.0),
        word(0.0),
        word(0.0),
        word(0.0),
        word(0.0),
        word(64.0),
        word(0.0),
        word(0.0),
        word(0.0),
        word(1.0),
        word(1.0),
        word(1.0),
    ];
    want.extend(sentinel());
    assert_eq!(functions.functions, want);
    assert_eq!(functions.draw_call(), Some(DrawCall { vertices: 1536, instances: 1 }));
}

#[test]
fn crowded_tile_is_capped_and_keeps_the_nearest() {
    let mut tiles = vec![(1_000_000, 1_000_000); 256];
    tiles[37] = (0, 0);
    let view = TileView::new(tiles, 200 * 200).unwrap();
    let objects: Vec<PlacedObject> = (0..150).rev().map(|i| circle_at(i + 1, 0)).collect();
    let mut functions = SDFFunctions::default();
    assert_eq!(update_tiles(&mut functions, Some(&view), &objects), Ok(FrameOutcome::Replaced));
    for t in 0..256 {
        let want = if t == 37 { 100 } else { 0 };
        assert_eq!(functions.tile_function_count[2 * t], want);
    }
    assert_eq!(functions.function_indices.len(), 100);
    assert_eq!(functions.functions.len(), 100 * 12 + 8);
    for (k, id) in functions.function_indices.iter().enumerate() {
        let x = f32::from_bits(functions.functions[12 * (*id as usize)]);
        assert_eq!(x, (k + 1) as f32);
    }
    for id in 0..100 {
        let x = f32::from_bits(functions.functions[12 * id]);
        assert!(x <= 100.0);
    }
}

fn crowd(n: usize) -> Vec<PlacedObject> {
    let c = centers();
    (0..n).map(|i| circle_at(c[i % 256].0, c[i % 256].1)).collect()
}

#[test]
fn frame_that_would_reach_the_limit_is_refused() {
    let view = TileView::new(centers(), 0).unwrap();
    let mut functions = SDFFunctions::default();
    let r = update_tiles(&mut functions, Some(&view), &crowd(5461));
    assert_eq!(r, Err(PackError::CapacityExceeded { words: 65540 }));
    assert_eq!(functions, SDFFunctions::default());
    assert_eq!(functions.draw_call(), None);
}

#[test]
fn refused_frame_keeps_the_previous_buffers() {
    let view = TileView::new(centers(), 0).unwrap();
    let mut functions = SDFFunctions::default();
    assert_eq!(update_tiles(&mut functions, Some(&view), &crowd(5460)), Ok(FrameOutcome::Replaced));
    assert_eq!(functions.functions.len(), 65528);
    let before = functions.clone();
    let r = update_tiles(&mut functions, Some(&view), &crowd(5461));
    assert_eq!(r, Err(PackError::CapacityExceeded { words: 65540 }));
    assert_eq!(functions, before);
}

#[test]
fn running_a_frame_again_changes_nothing() {
    let view = TileView::new(centers(), 150 * 150).unwrap();
    let objects: Vec<PlacedObject> =
        (0..500).map(|i| circle_at(((i * 53) % 1400) - 700, ((i * 29) % 800) - 400)).collect();
    let mut functions = SDFFunctions::default();
    assert_eq!(update_tiles(&mut functions, Some(&view), &objects), Ok(FrameOutcome::Replaced));
    let first = functions.clone();
    assert_eq!(update_tiles(&mut functions, Some(&view), &objects), Ok(FrameOutcome::Replaced));
    assert_eq!(functions, first);
    let mut fresh = SDFFunctions::default();
    assert_eq!(update_tiles(&mut fresh, Some(&view), &objects), Ok(FrameOutcome::Replaced));
    assert_eq!(fresh, first);
}

#[test]
fn packed_frame_obeys_the_layout() {
    let view = TileView::new(centers(), 150 * 150).unwrap();
    let objects: Vec<PlacedObject> =
        (0..500).map(|i| circle_at(((i * 53) % 1400) - 700, ((i * 29) % 800) - 400)).collect();
    let mut functions = SDFFunctions::default();
    assert_eq!(update_tiles(&mut functions, Some(&view), &objects), Ok(FrameOutcome::Replaced));
    let n = (functions.functions.len() - 8) / 12;
    assert_eq!(functions.functions.len(), 12 * n + 8);
    assert_eq!(&functions.functions[12 * n..], &sentinel()[..]);
    let c = centers();
    let mut running = 0u32;
    for t in 0..256 {
        let count = functions.tile_function_count[2 * t];
        assert!(count <= 100);
        assert_eq!(functions.tile_function_count[2 * t + 1], running);
        let mut last = 0.0f32;
        for k in 0..count {
            let id = functions.function_indices[(running + k) as usize] as usize;
            assert!(id < n);
            let x = f32::from_bits(functions.functions[12 * id]);
            let y = f32::from_bits(functions.functions[12 * id + 1]);
            let d = (x - c[t].0 as f32).powi(2) + (y - c[t].1 as f32).powi(2);
            assert!(d <= 150.0 * 150.0);
            assert!(last <= d);
            last = d;
        }
        running += count;
    }
    assert_eq!(functions.function_indices.len() as u32, running);
}
