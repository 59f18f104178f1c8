use pixel_map::{
    apply_ops, batch_with_repeat, chunk_origin_buffer, chunk_size_buffer, prepare_binds,
    prepare_chunks, stamp_positions_buffer, stamp_sizes_buffer, IVec2, PassLayer, PixelMap,
    PixelPositionedTexture, RenderData, UVec2, BATCH_WIDTH,
};

fn stamp(x: i32, y: i32, image: u64) -> PixelPositionedTexture {
    PixelPositionedTexture { position: IVec2 { x, y }, image, size: UVec2 { x: 4, y: 4 } }
}

#[test]
fn batch_padding_repeats_last_stamp() {
    // Three stamps at batch width 8 give exactly one batch of length 8
    // whose slots 3..=7 all equal slot 2.
    let stamps = vec![stamp(0, 0, 1), stamp(1, 0, 2), stamp(2, 0, 3)];
    let batches = batch_with_repeat(&stamps, 8);
    assert_eq!(batches.len(), 1);
    assert_eq!(batches[0].len(), 8);
    assert_eq!(batches[0][0].image, 1);
    assert_eq!(batches[0][1].image, 2);
    assert_eq!(batches[0][2].image, 3);
    for j in 3..8 {
        assert_eq!(batches[0][j], batches[0][2]);
    }
}

#[test]
fn batch_exact_multiple_has_no_padding() {
    let mut stamps = Vec::new();
    for i in 0..16 {
        stamps.push(stamp(i, 0, i as u64));
    }
    let batches = batch_with_repeat(&stamps, 8);
    assert_eq!(batches.len(), 2);
    for b in 0..2 {
        assert_eq!(batches[b].len(), 8);
        for j in 0..8 {
            assert_eq!(batches[b][j].image, (b * 8 + j) as u64);
        }
    }
}

#[test]
fn batch_of_empty_bucket_is_empty() {
    let stamps: Vec<PixelPositionedTexture> = Vec::new();
    assert_eq!(batch_with_repeat(&stamps, 8).len(), 0);
}

#[test]
fn batch_nine_stamps_two_batches() {
    let mut stamps = Vec::new();
    for i in 0..9 {
        stamps.push(stamp(i, 0, i as u64));
    }
    let batches = batch_with_repeat(&stamps, BATCH_WIDTH);
    assert_eq!(batches.len(), 2);
    assert_eq!(batches[1][0].image, 8);
    for j in 1..8 {
        assert_eq!(batches[1][j].image, 8);
    }
}

#[test]
fn prepare_binds_records_batches_and_requests() {
    let mut canvas = PixelMap::new(
        UVec2 { x: 8, y: 8 },
        0,
        None,
        None,
        None,
        vec!["shaders/settle.wgsl".to_owned()],
    );
    canvas.set_pixels_gpu(vec![stamp(0, 0, 5)]);
    prepare_chunks(&mut canvas);
    assert_eq!(canvas.bucket_count(), 9);

    let mut render_data = RenderData::new();
    let requests = prepare_binds(&canvas, &mut render_data);
    // Nothing is cached yet: per bucket, one stamp request and one request
    // per configured simulation shader.
    assert_eq!(requests.len(), 18);
    assert_eq!(render_data.bind_map.len(), 9);
    assert_eq!(render_data.bind_map_2.len(), 9);
    for entry in &render_data.bind_map {
        assert_eq!(entry.binds.len(), 1);
        let bind = &entry.binds[0];
        assert_eq!(bind.chunk_size, UVec2 { x: 8, y: 8 });
        assert_eq!(bind.stamps.len(), 8);
        for s in &bind.stamps {
            assert_eq!(s.image, 5);
        }
    }
    for entry in &render_data.bind_map_2 {
        assert_eq!(entry.binds.len(), 1);
    }

    // Register one pipeline per request, with distinct identifiers.
    let mut ready: Vec<u64> = Vec::new();
    let mut next_id: u64 = 100;
    for req in &requests {
        match req.layer {
            PassLayer::Stamp => {
                assert_eq!(req.shader_path, "shaders/place_tex.wgsl");
                render_data.register_stamp_pipeline(req.chunk_position, next_id);
            }
            PassLayer::Simulation => {
                assert_eq!(req.shader_path, "shaders/settle.wgsl");
                render_data.register_sim_pipelines(req.chunk_position, vec![next_id]);
            }
        }
        ready.push(next_id);
        next_id += 1;
    }

    let ops = apply_ops(&mut render_data, &ready);
    // One stamp dispatch and one simulation dispatch per chunk.
    assert_eq!(ops.len(), 18);
    for op in &ops[0..9] {
        assert_eq!(op.layer, PassLayer::Stamp);
        assert_eq!(op.workgroups_x, 1);
        assert_eq!(op.workgroups_y, 1);
    }
    for op in &ops[9..18] {
        assert_eq!(op.layer, PassLayer::Simulation);
    }
    // The per-frame binding tables are cleared; the pipeline caches persist.
    assert_eq!(render_data.bind_map.len(), 0);
    assert_eq!(render_data.bind_map_2.len(), 0);
    assert_eq!(render_data.shader_map.len(), 9);
    assert_eq!(render_data.shader_map_2.len(), 9);
}

#[test]
fn pipeline_not_ready_defers_dispatch() {
    let mut canvas = PixelMap::new(UVec2 { x: 8, y: 8 }, 0, None, None, None, Vec::new());
    canvas.set_pixels_gpu(vec![stamp(0, 0, 1)]);
    prepare_chunks(&mut canvas);

    let mut render_data = RenderData::new();
    let requests = prepare_binds(&canvas, &mut render_data);
    assert_eq!(requests.len(), 9);
    for (i, req) in requests.iter().enumerate() {
        render_data.register_stamp_pipeline(req.chunk_position, i as u64);
    }
    // No pipeline has compiled yet: nothing is dispatched, the bindings are
    // dropped and will be rebuilt from the still-standing overlap table.
    let ops = apply_ops(&mut render_data, &Vec::new());
    assert_eq!(ops.len(), 0);
    assert_eq!(render_data.bind_map.len(), 0);

    // Next frame: the pipelines are cached, so no new requests; once the
    // host reports them compiled, the dispatches appear.
    let requests = prepare_binds(&canvas, &mut render_data);
    assert_eq!(requests.len(), 0);
    let ready: Vec<u64> = (0..9).collect();
    let ops = apply_ops(&mut render_data, &ready);
    assert_eq!(ops.len(), 9);
    for op in &ops {
        assert_eq!(op.layer, PassLayer::Stamp);
        assert_eq!(op.batch_index, 0);
    }
}

#[test]
fn workgroup_counts_divide_chunk_size() {
    let mut canvas = PixelMap::new(UVec2 { x: 64, y: 32 }, 0, None, None, None, Vec::new());
    canvas.set_pixels_gpu(vec![stamp(0, 0, 1)]);
    prepare_chunks(&mut canvas);
    let mut render_data = RenderData::new();
    let requests = prepare_binds(&canvas, &mut render_data);
    let mut ready: Vec<u64> = Vec::new();
    for (i, req) in requests.iter().enumerate() {
        render_data.register_stamp_pipeline(req.chunk_position, i as u64);
        ready.push(i as u64);
    }
    let ops = apply_ops(&mut render_data, &ready);
    assert!(!ops.is_empty());
    for op in &ops {
        assert_eq!(op.workgroups_x, 8);
        assert_eq!(op.workgroups_y, 4);
    }
}

#[test]
fn buffer_contents_are_little_endian_pairs() {
    // Origin (3, -2) * chunk size (8, 8) = (24, -16): 24 then the
    // two's-complement bytes of -16.
    assert_eq!(
        chunk_origin_buffer(IVec2 { x: 3, y: -2 }, UVec2 { x: 8, y: 8 }),
        vec![24, 0, 0, 0, 0xF0, 0xFF, 0xFF, 0xFF]
    );
    assert_eq!(
        chunk_size_buffer(UVec2 { x: 100, y: 300 }),
        vec![100, 0, 0, 0, 44, 1, 0, 0]
    );
    let stamps = vec![
        PixelPositionedTexture {
            position: IVec2 { x: 1, y: -1 },
            image: 0,
            size: UVec2 { x: 2, y: 258 },
        },
        PixelPositionedTexture {
            position: IVec2 { x: 513, y: 7 },
            image: 0,
            size: UVec2 { x: 9, y: 10 },
        },
    ];
    assert_eq!(
        stamp_positions_buffer(&stamps),
        vec![
            1, 0, 0, 0, 0xFF, 0xFF, 0xFF, 0xFF, // (1, -1)
            1, 2, 0, 0, 7, 0, 0, 0, // (513, 7)
        ]
    );
    assert_eq!(
        stamp_sizes_buffer(&stamps),
        vec![
            2, 0, 0, 0, 2, 1, 0, 0, // (2, 258)
            9, 0, 0, 0, 10, 0, 0, 0, // (9, 10)
        ]
    );
}

#[test]
fn buffer_contents_match_raw_value_bytes() {
    // On this target the little-endian layout coincides with the raw
    // in-memory bytes of the values, which is what the compute shader
    // reads.
    assert_eq!(
        chunk_size_buffer(UVec2 { x: 100, y: 100 }),
        bytemuck::cast_slice::<u32, u8>(&[100, 100]).to_vec()
    );
    assert_eq!(
        chunk_origin_buffer(IVec2 { x: 3, y: -2 }, UVec2 { x: 8, y: 8 }),
        bytemuck::cast_slice::<i32, u8>(&[24, -16]).to_vec()
    );
    let mut stamps = Vec::new();
    let mut flat_pos: Vec<i32> = Vec::new();
    let mut flat_size: Vec<u32> = Vec::new();
    for i in 0..8 {
        stamps.push(stamp(i, -i, i as u64));
        flat_pos.push(i);
        flat_pos.push(-i);
        flat_size.push(4);
        flat_size.push(4);
    }
    assert_eq!(
        stamp_positions_buffer(&stamps),
        bytemuck::cast_slice::<i32, u8>(&flat_pos).to_vec()
    );
    assert_eq!(
        stamp_sizes_buffer(&stamps),
        bytemuck::cast_slice::<u32, u8>(&flat_size).to_vec()
    );
}
