use sdf_tiles::buffers::{DrawCall, SDFFunctions};
use sdf_tiles::pack::{encode, PackError, PlacedObject};
use sdf_tiles::select::Assignment;
use sdf_tiles::shape::{Rgba, SDFObject, SDF};

fn word(x: f32) -> u32 {
    x.to_bits()
}

fn placed(i: usize) -> PlacedObject {
    let f = i as f32;
    PlacedObject {
        site: (i as i32, 0),
        pose: [word(f), word(-f), word(0.5), word(0.25 * f)],
        object: SDFObject::new(
            SDF::Rectangle(word(f + 1.0), word(f + 2.0)),
            Rgba { r: word(0.1), g: word(0.2), b: word(0.3), a: word(1.0) },
            word(f * 10.0),
        ),
    }
}

fn record(i: usize) -> Vec<u32> {
    let f = i as f32;
    vec![
        word(f),
        word(-f),
        word(0.5),
        word(0.25 * f),
        word(1.0),
        word(f + 1.0),
        word(f + 2.0),
        word(f * 10.0),
        word(0.1),
        word(0.2),
        word(0.3),
        word(1.0),
    ]
}

fn sentinel() -> Vec<u32> {
    vec![
        word(0.0),
        word(f32::NEG_INFINITY),
        word(0.0),
        word(0.0),
        word(1.0),
        word(1.0),
        word(1.0),
        word(1.0),
    ]
}

fn lists(entries: &[(usize, Vec<usize>)]) -> Assignment {
    let mut tiles = vec![Vec::new(); 256];
    for (t, l) in entries {
        tiles[*t] = l.clone();
    }
    Assignment::new(tiles).unwrap()
}

#[test]
fn default_buffers_are_empty() {
    let f = SDFFunctions::default();
    assert_eq!(f.panel_width, 16);
    assert_eq!(f.panel_height, 16);
    assert!(f.functions.is_empty());
    assert!(f.tile_function_count.is_empty());
    assert!(f.function_indices.is_empty());
}

#[test]
fn nothing_is_drawn_from_empty_buffers() {
    assert_eq!(SDFFunctions::default().draw_call(), None);
}

#[test]
fn packed_buffers_draw_two_triangles_per_tile() {
    let objects = vec![placed(0)];
    let packed = encode(&objects, &lists(&[(0, vec![0])])).unwrap().unwrap();
    assert_eq!(packed.draw_call(), Some(DrawCall { vertices: 1536, instances: 1 }));
}

#[test]
fn record_is_pose_then_object() {
    let mut out = vec![7];
    placed(3).write_record(&mut out);
    let mut want = vec![7];
    want.extend(record(3));
    assert_eq!(out, want);
}

#[test]
fn empty_assignment_packs_nothing() {
    let objects = vec![placed(0), placed(1)];
    assert_eq!(encode(&objects, &lists(&[])), Ok(None));
    assert_eq!(encode(&Vec::new(), &lists(&[])), Ok(None));
}

#[test]
fn ids_follow_the_order_of_the_scene() {
    let objects: Vec<PlacedObject> = (0..6).map(placed).collect();
    let a = lists(&[(0, vec![4, 1]), (2, vec![5]), (255, vec![1, 5, 4])]);
    let packed = encode(&objects, &a).unwrap().unwrap();
    let mut functions = Vec::new();
    functions.extend(record(1));
    functions.extend(record(4));
    functions.extend(record(5));
    functions.extend(sentinel());
    assert_eq!(packed.functions, functions);
    assert_eq!(packed.function_indices, vec![1, 0, 2, 0, 2, 1]);
    let mut counts = vec![0u32; 512];
    counts[0] = 2;
    counts[1] = 0;
    counts[3] = 2;
    counts[4] = 1;
    counts[5] = 2;
    for t in 3..256 {
        counts[2 * t + 1] = 3;
    }
    counts[510] = 3;
    assert_eq!(packed.tile_function_count, counts);
    assert_eq!(packed.panel_width, 16);
    assert_eq!(packed.panel_height, 16);
}

#[test]
fn offsets_are_running_sums_of_counts() {
    let objects: Vec<PlacedObject> = (0..40).map(placed).collect();
    let mut tiles = vec![Vec::new(); 256];
    for t in 0..256 {
        tiles[t] = (0..(t % 7)).map(|k| (t + 3 * k) % 40).collect();
    }
    let a = Assignment::new(tiles.clone()).unwrap();
    let packed = encode(&objects, &a).unwrap().unwrap();
    assert_eq!(packed.tile_function_count.len(), 512);
    let mut running = 0u32;
    for t in 0..256 {
        assert_eq!(packed.tile_function_count[2 * t], tiles[t].len() as u32);
        assert!(packed.tile_function_count[2 * t] <= 100);
        assert_eq!(packed.tile_function_count[2 * t + 1], running);
        running += tiles[t].len() as u32;
    }
    assert_eq!(packed.function_indices.len() as u32, running);
    assert_eq!(
        packed.function_indices.len() as u32,
        packed.tile_function_count[511] + packed.tile_function_count[510]
    );
    let n = (packed.functions.len() - 8) / 12;
    assert_eq!(packed.functions.len(), 12 * n + 8);
    for id in &packed.function_indices {
        assert!((*id as usize) < n);
    }
    for t in 0..256 {
        let at = packed.tile_function_count[2 * t + 1] as usize;
        for (k, o) in tiles[t].iter().enumerate() {
            let id = packed.function_indices[at + k] as usize;
            assert_eq!(&packed.functions[12 * id..12 * id + 12], &record(*o)[..]);
        }
    }
}

#[test]
fn object_buffer_ends_with_a_short_terminating_record() {
    let objects = vec![placed(0), placed(1)];
    let packed = encode(&objects, &lists(&[(7, vec![1])])).unwrap().unwrap();
    assert_eq!(packed.functions.len(), 12 + 8);
    assert_eq!(&packed.functions[..12], &record(1)[..]);
    assert_eq!(&packed.functions[12..], &sentinel()[..]);
    assert_eq!(packed.function_indices, vec![0]);
}

fn spread(n: usize) -> Assignment {
    let mut tiles = vec![Vec::new(); 256];
    for o in 0..n {
        tiles[o % 256].push(o);
    }
    Assignment::new(tiles).unwrap()
}

#[test]
fn largest_frame_that_fits() {
    let objects: Vec<PlacedObject> = (0..5460).map(placed).collect();
    let packed = encode(&objects, &spread(5460)).unwrap().unwrap();
    assert_eq!(packed.functions.len(), 65528);
    assert!(packed.functions.len() < 65536);
}

#[test]
fn capacity_exceeded_beyond_the_limit() {
    let objects: Vec<PlacedObject> = (0..5461).map(placed).collect();
    assert_eq!(
        encode(&objects, &spread(5461)),
        Err(PackError::CapacityExceeded { words: 65540 })
    );
    let objects: Vec<PlacedObject> = (0..6000).map(placed).collect();
    assert_eq!(
        encode(&objects, &spread(6000)),
        Err(PackError::CapacityExceeded { words: 72008 })
    );
}

#[test]
fn unreferenced_objects_do_not_count_towards_capacity() {
    let objects: Vec<PlacedObject> = (0..7000).map(placed).collect();
    let packed = encode(&objects, &spread(5460)).unwrap().unwrap();
    assert_eq!(packed.functions.len(), 65528);
}
