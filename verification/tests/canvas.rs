use pixel_map::{
    add_pixel_map_chunks, prepare_chunks, IVec2, PixelMap, PixelPositionedTexture, UVec2,
};
use pixel_map::PixelMapError;

fn small_canvas() -> PixelMap {
    PixelMap::new(UVec2 { x: 8, y: 8 }, 7, None, None, None, Vec::new())
}

#[test]
fn write_then_read_new_chunk() {
    let mut canvas = small_canvas();
    let p = IVec2 { x: 3, y: 5 };
    let color: [u8; 4] = [200, 10, 20, 255];
    let spawns = canvas.set_pixels_cpu((vec![p], vec![color])).unwrap();
    assert_eq!(spawns.len(), 1);
    assert_eq!(canvas.get_pixels_cpu(&vec![p]), vec![color]);
}

#[test]
fn write_then_read_existing_chunk() {
    let mut canvas = small_canvas();
    let p1 = IVec2 { x: -3, y: -5 };
    let p2 = IVec2 { x: -1, y: -8 };
    let c1: [u8; 4] = [1, 2, 3, 4];
    let c2: [u8; 4] = [5, 6, 7, 8];
    canvas.set_pixels_cpu((vec![p1], vec![c1])).unwrap();
    // p2 lives in the same chunk as p1: the second write creates nothing.
    let spawns = canvas.set_pixels_cpu((vec![p2], vec![c2])).unwrap();
    assert_eq!(spawns.len(), 0);
    assert_eq!(canvas.get_pixels_cpu(&vec![p1, p2]), vec![c1, c2]);
}

#[test]
fn unpainted_read_returns_default_fill() {
    let canvas = PixelMap::new(
        UVec2 { x: 8, y: 8 },
        0,
        None,
        None,
        Some([9, 8, 7, 6]),
        Vec::new(),
    );
    let reads = canvas.get_pixels_cpu(&vec![IVec2 { x: 1000, y: -1000 }, IVec2 { x: 0, y: 0 }]);
    assert_eq!(reads, vec![[9, 8, 7, 6], [9, 8, 7, 6]]);
}

#[test]
fn add_chunk_is_idempotent() {
    let mut canvas = small_canvas();
    let spawn = canvas.add_chunk(IVec2 { x: 2, y: -3 }).unwrap();
    assert_eq!(spawn.slot, 0);
    assert_eq!(spawn.world_x, 16);
    assert_eq!(spawn.world_y, -24);
    assert_eq!(spawn.parent, 7);
    assert_eq!(canvas.chunk_count(), 1);
    // A second materialization of the same coordinate stores nothing.
    assert!(canvas.add_chunk(IVec2 { x: 2, y: -3 }).is_none());
    assert_eq!(canvas.chunk_count(), 1);
}

#[test]
fn mismatched_write_returns_length_mismatch() {
    let mut canvas = small_canvas();
    let r = canvas.set_pixels_cpu((vec![IVec2 { x: 0, y: 0 }], Vec::new()));
    assert_eq!(r.unwrap_err(), PixelMapError::LengthMismatch);
    // The store is untouched: no chunk was created, reads still default.
    assert_eq!(canvas.chunk_count(), 0);
    assert_eq!(canvas.get_pixels_cpu(&vec![IVec2 { x: 0, y: 0 }]), vec![[0, 0, 0, 0]]);
}

#[test]
fn queued_write_length_mismatch() {
    let mut canvas = small_canvas();
    let r = canvas.set_pixels(vec![IVec2 { x: 0, y: 0 }], Vec::new());
    assert_eq!(r.unwrap_err(), PixelMapError::LengthMismatch);
    let spawns = add_pixel_map_chunks(&mut canvas);
    assert_eq!(spawns.len(), 0);
    assert_eq!(canvas.chunk_count(), 0);
}

#[test]
fn queued_writes_apply_in_order() {
    let mut canvas = small_canvas();
    let p = IVec2 { x: 4, y: 4 };
    canvas.set_pixels(vec![p], vec![[1, 1, 1, 1]]).unwrap();
    canvas.set_pixels(vec![p], vec![[2, 2, 2, 2]]).unwrap();
    // Nothing is applied until the per-frame pass runs.
    assert_eq!(canvas.chunk_count(), 0);
    let spawns = add_pixel_map_chunks(&mut canvas);
    assert_eq!(spawns.len(), 1);
    assert_eq!(canvas.get_pixels_cpu(&vec![p]), vec![[2, 2, 2, 2]]);
    // The queue was drained: a second pass changes nothing.
    let spawns = add_pixel_map_chunks(&mut canvas);
    assert_eq!(spawns.len(), 0);
    assert_eq!(canvas.get_pixels_cpu(&vec![p]), vec![[2, 2, 2, 2]]);
}

#[test]
fn later_write_wins_within_one_batch() {
    let mut canvas = small_canvas();
    let p = IVec2 { x: 0, y: 0 };
    canvas
        .set_pixels_cpu((vec![p, p], vec![[1, 1, 1, 1], [9, 9, 9, 9]]))
        .unwrap();
    assert_eq!(canvas.get_pixels_cpu(&vec![p]), vec![[9, 9, 9, 9]]);
}

#[test]
fn template_fills_new_chunks() {
    let template: Vec<u8> = vec![42; 8 * 8 * 4];
    let mut canvas = PixelMap::new(
        UVec2 { x: 8, y: 8 },
        0,
        Some(template),
        None,
        Some([1, 2, 3, 4]),
        Vec::new(),
    );
    let written = IVec2 { x: 0, y: 0 };
    canvas.set_pixels_cpu((vec![written], vec![[255, 0, 0, 255]])).unwrap();
    // An untouched pixel of a materialized chunk shows the template...
    assert_eq!(canvas.get_pixels_cpu(&vec![IVec2 { x: 1, y: 0 }]), vec![[42, 42, 42, 42]]);
    // ...while a pixel of an absent chunk shows the default fill color.
    assert_eq!(canvas.get_pixels_cpu(&vec![IVec2 { x: 80, y: 80 }]), vec![[1, 2, 3, 4]]);
}

#[test]
fn overlap_footprint_nine_chunks() {
    // A 5x5 stamp at (10, 10) on a 100x100-chunk canvas touches only chunk
    // (0, 0); with the one-chunk padding its buckets are exactly that chunk
    // and its 8 neighbors.
    let mut canvas = PixelMap::new(UVec2 { x: 100, y: 100 }, 0, None, None, None, Vec::new());
    canvas.set_pixels_gpu(vec![PixelPositionedTexture {
        position: IVec2 { x: 10, y: 10 },
        image: 1,
        size: UVec2 { x: 5, y: 5 },
    }]);
    let spawns = prepare_chunks(&mut canvas);
    assert_eq!(spawns.len(), 9);
    assert_eq!(canvas.bucket_count(), 9);
    assert_eq!(canvas.chunk_count(), 9);
    let mut keys: Vec<(i32, i32)> = Vec::new();
    for i in 0..canvas.bucket_count() {
        let k = canvas.bucket_key(i);
        keys.push((k.x, k.y));
        let stamps = canvas.bucket_stamps(i);
        assert_eq!(stamps.len(), 1);
        assert_eq!(stamps[0].image, 1);
        assert_eq!(stamps[0].position, IVec2 { x: 10, y: 10 });
    }
    keys.sort();
    let mut expected: Vec<(i32, i32)> = Vec::new();
    for x in -1..=1 {
        for y in -1..=1 {
            expected.push((x, y));
        }
    }
    expected.sort();
    assert_eq!(keys, expected);
}

#[test]
fn prepare_chunks_rebuilds_buckets_each_frame() {
    let mut canvas = PixelMap::new(UVec2 { x: 100, y: 100 }, 0, None, None, None, Vec::new());
    canvas.set_pixels_gpu(vec![PixelPositionedTexture {
        position: IVec2 { x: 0, y: 0 },
        image: 3,
        size: UVec2 { x: 1, y: 1 },
    }]);
    prepare_chunks(&mut canvas);
    assert_eq!(canvas.bucket_count(), 9);
    // The queue was cleared, so the next frame's table is empty.
    let spawns = prepare_chunks(&mut canvas);
    assert_eq!(spawns.len(), 0);
    assert_eq!(canvas.bucket_count(), 0);
}

#[test]
fn bucket_keeps_enqueue_order() {
    let mut canvas = PixelMap::new(UVec2 { x: 100, y: 100 }, 0, None, None, None, Vec::new());
    let s1 = PixelPositionedTexture {
        position: IVec2 { x: 10, y: 10 },
        image: 1,
        size: UVec2 { x: 5, y: 5 },
    };
    let s2 = PixelPositionedTexture {
        position: IVec2 { x: 20, y: 20 },
        image: 2,
        size: UVec2 { x: 5, y: 5 },
    };
    canvas.set_pixels_gpu(vec![s1]);
    canvas.set_pixels_gpu(vec![s2]);
    prepare_chunks(&mut canvas);
    assert_eq!(canvas.bucket_count(), 9);
    for i in 0..canvas.bucket_count() {
        let stamps = canvas.bucket_stamps(i);
        assert_eq!(stamps.len(), 2);
        assert_eq!(stamps[0].image, 1);
        assert_eq!(stamps[1].image, 2);
    }
}

#[test]
fn stamp_on_chunk_boundary_reaches_neighbors() {
    // A stamp whose body crosses a chunk boundary gets a 4x3 padded
    // footprint of chunks.
    let mut canvas = PixelMap::new(UVec2 { x: 8, y: 8 }, 0, None, None, None, Vec::new());
    canvas.set_pixels_gpu(vec![PixelPositionedTexture {
        position: IVec2 { x: 6, y: 0 },
        image: 9,
        size: UVec2 { x: 4, y: 4 },
    }]);
    prepare_chunks(&mut canvas);
    // x spans chunks 0..=1, y spans chunk 0; padded: x in -1..=2, y in -1..=1.
    assert_eq!(canvas.bucket_count(), 12);
}
