use pixel_map::{get_chunk_index_i, get_chunk_inner_i, get_chunk_outer_i, IVec2, UVec2};

#[test]
fn chunk_decomposition_holds_on_both_axes() {
    let sizes = [
        UVec2 { x: 8, y: 8 },
        UVec2 { x: 4, y: 4 },
        UVec2 { x: 100, y: 100 },
        UVec2 { x: 3, y: 7 },
    ];
    let points = [
        IVec2 { x: 0, y: 0 },
        IVec2 { x: 1, y: 1 },
        IVec2 { x: -1, y: -1 },
        IVec2 { x: -100, y: 99 },
        IVec2 { x: 2147480000, y: -2147480000 },
        IVec2 { x: i32::MIN, y: i32::MAX },
    ];
    for cs in sizes {
        for p in points {
            let outer = get_chunk_outer_i(p, cs);
            let inner = get_chunk_inner_i(p, cs);
            assert_eq!(outer.x as i64 * cs.x as i64 + inner.x as i64, p.x as i64);
            assert_eq!(outer.y as i64 * cs.y as i64 + inner.y as i64, p.y as i64);
            assert!(inner.x < cs.x);
            assert!(inner.y < cs.y);
        }
    }
}

#[test]
fn negative_coordinates_floor_not_truncate() {
    let cs = UVec2 { x: 8, y: 8 };
    let outer = get_chunk_outer_i(IVec2 { x: -1, y: -1 }, cs);
    assert_eq!(outer, IVec2 { x: -1, y: -1 });
    let outer = get_chunk_outer_i(IVec2 { x: -8, y: -9 }, cs);
    assert_eq!(outer, IVec2 { x: -1, y: -2 });
    let outer = get_chunk_outer_i(IVec2 { x: 7, y: 8 }, cs);
    assert_eq!(outer, IVec2 { x: 0, y: 1 });
}

#[test]
fn index_example_flipped_rows() {
    // Local inner offset (1, 1) in a 4x4 chunk: (4 - 1 - 1) * 4 + 1 == 9.
    let cs = UVec2 { x: 4, y: 4 };
    let p = IVec2 { x: 1, y: 1 };
    assert_eq!(get_chunk_inner_i(p, cs), UVec2 { x: 1, y: 1 });
    assert_eq!(get_chunk_index_i(p, cs), 9);
}

#[test]
fn index_zero_is_top_left() {
    let cs = UVec2 { x: 4, y: 4 };
    // The top row of the chunk (greatest inner y) starts at index 0.
    assert_eq!(get_chunk_index_i(IVec2 { x: 0, y: 3 }, cs), 0);
    // The bottom-right texel is the last index.
    assert_eq!(get_chunk_index_i(IVec2 { x: 3, y: 0 }, cs), 15);
}
