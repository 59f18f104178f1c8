use vstd::prelude::*;
use crate::batching::{batch_with_repeat, BATCH_WIDTH};
use crate::chunk_position::{IVec2, UVec2};
use crate::model::{CanvasModel, StampModel};
use crate::pixel_map::{coord_of, stamps_view, PixelMap, PixelPositionedTexture};

verus! {

/// Which compute pass a pipeline or a dispatch belongs to: the stamp
/// compositing pass, or a configured whole-chunk simulation pass.
#[derive(Clone, Copy, PartialEq, Eq, Structural, Debug)]
pub enum PassLayer {
    /// The batched stamp compositing pass.
    Stamp,
    /// A per-chunk simulation pass with no stamp input.
    Simulation,
}

/// Everything the host needs to build the bind group of one stamp dispatch:
/// the destination chunk (by coordinate and slot), the chunk geometry for
/// the two uniform buffers, and the batch's stamps, whose positions, sizes
/// and source textures fill the fixed-width binding slots.
pub struct BatchBinding {
    /// Coordinate of the destination chunk.
    pub chunk_position: IVec2,
    /// The canvas's chunk dimensions.
    pub chunk_size: UVec2,
    /// Slot of the destination chunk's texture.
    pub dest_slot: usize,
    /// Exactly `BATCH_WIDTH` stamps, the tail padded by repetition.
    pub stamps: Vec<PixelPositionedTexture>,
}

/// Everything the host needs to build the bind group of one simulation
/// dispatch: the destination chunk and the chunk geometry.
pub struct SimBinding {
    /// Coordinate of the destination chunk.
    pub chunk_position: IVec2,
    /// The canvas's chunk dimensions.
    pub chunk_size: UVec2,
    /// Slot of the destination chunk's texture.
    pub dest_slot: usize,
}

/// The stamp-pass batch bindings recorded for one chunk this frame.
pub struct ChunkBinds {
    /// The destination chunk.
    pub chunk_position: IVec2,
    /// One binding per batch, in batch order.
    pub binds: Vec<BatchBinding>,
}

/// The simulation-pass bindings recorded for one chunk this frame.
pub struct ChunkSimBinds {
    /// The destination chunk.
    pub chunk_position: IVec2,
    /// The recorded simulation bindings.
    pub binds: Vec<SimBinding>,
}

/// The cached stamp-pass pipeline of one chunk.
#[derive(Clone, Copy, PartialEq, Eq, Structural, Debug)]
pub struct ChunkPipeline {
    /// The chunk the pipeline was compiled for.
    pub chunk_position: IVec2,
    /// The host's identifier of the queued compute pipeline.
    pub pipeline: u64,
}

/// The cached simulation-pass pipelines of one chunk, one per configured
/// simulation shader, in shader order.
pub struct ChunkSimPipelines {
    /// The chunk the pipelines were compiled for.
    pub chunk_position: IVec2,
    /// The host's identifiers of the queued compute pipelines.
    pub pipelines: Vec<u64>,
}

/// A compute pipeline the host must queue for compilation and then register
/// back under the given chunk coordinate.
pub struct PipelineRequest {
    /// The chunk the pipeline is for.
    pub chunk_position: IVec2,
    /// Which pass the pipeline serves.
    pub layer: PassLayer,
    /// Asset path of the shader module.
    pub shader_path: String,
}

/// One compute dispatch the host must submit: bind the pipeline and the
/// recorded binding, then dispatch the given workgroup counts (and 1 in z).
#[derive(Clone, Copy, PartialEq, Eq, Structural, Debug)]
pub struct DispatchOp {
    /// The destination chunk, naming the recorded binding together with
    /// `layer` and `batch_index`.
    pub chunk_position: IVec2,
    /// Which pass's binding and pipeline to use.
    pub layer: PassLayer,
    /// Index of the recorded binding for that chunk and pass.
    pub batch_index: usize,
    /// The host's identifier of the compiled pipeline.
    pub pipeline: u64,
    /// Workgroups along x: the chunk width divided by the tile width.
    pub workgroups_x: u32,
    /// Workgroups along y: the chunk height divided by the tile width.
    pub workgroups_y: u32,
}

/// The render-phase state: the per-frame binding tables, cleared by each
/// `apply_ops` pass, and the persistent per-chunk pipeline caches, kept for
/// the lifetime of the canvas so pipelines are never recompiled.
pub struct RenderData {
    /// Stamp-pass bindings recorded this frame, one entry per chunk.
    pub bind_map: Vec<ChunkBinds>,
    /// The persistent stamp-pass pipeline cache.
    pub shader_map: Vec<ChunkPipeline>,
    /// Simulation-pass bindings recorded this frame, one entry per chunk.
    pub bind_map_2: Vec<ChunkSimBinds>,
    /// The persistent simulation-pass pipeline cache.
    pub shader_map_2: Vec<ChunkSimPipelines>,
}

/// Whether the stamp-pass pipeline cache holds chunk coordinate `c`.
pub open spec fn has_stamp_pipeline(sm: Seq<ChunkPipeline>, c: (int, int)) -> bool {
    exists|i: int| 0 <= i < sm.len() && coord_of(sm[i].chunk_position) == c
}

/// The cached stamp-pass pipeline of chunk `c`: the first entry holding it.
pub open spec fn stamp_pipeline_at(sm: Seq<ChunkPipeline>, c: (int, int)) -> u64
    decreases sm.len(),
{
    if sm.len() == 0 {
        0
    } else if coord_of(sm[0].chunk_position) == c {
        sm[0].pipeline
    } else {
        stamp_pipeline_at(sm.skip(1), c)
    }
}

/// Whether the simulation-pass pipeline cache holds chunk coordinate `c`.
pub open spec fn has_sim_pipelines(sm: Seq<ChunkSimPipelines>, c: (int, int)) -> bool {
    exists|i: int| 0 <= i < sm.len() && coord_of(sm[i].chunk_position) == c
}

/// The cached simulation-pass pipelines of chunk `c`.
pub open spec fn sim_pipelines_at(sm: Seq<ChunkSimPipelines>, c: (int, int)) -> Seq<u64>
    decreases sm.len(),
{
    if sm.len() == 0 {
        Seq::empty()
    } else if coord_of(sm[0].chunk_position) == c {
        sm[0].pipelines@
    } else {
        sim_pipelines_at(sm.skip(1), c)
    }
}

/// Asset path of the stamp compositing shader.
pub open spec fn stamp_shader_spec() -> Seq<char> {
    "shaders/place_tex.wgsl"@
}

/// What a pipeline request amounts to: a chunk, a pass, and a shader path.
#[verifier::ext_equal]
pub ghost struct RequestModel {
    /// The chunk the pipeline is for.
    pub chunk: (int, int),
    /// Which pass the pipeline serves.
    pub layer: PassLayer,
    /// Asset path of the shader module.
    pub shader: Seq<char>,
}

/// The model of one pipeline request.
pub open spec fn request_view(r: PipelineRequest) -> RequestModel {
    RequestModel { chunk: coord_of(r.chunk_position), layer: r.layer, shader: r.shader_path@ }
}

/// The models of a sequence of pipeline requests.
pub open spec fn requests_view(rs: Seq<PipelineRequest>) -> Seq<RequestModel> {
    Seq::new(rs.len(), |i: int| request_view(rs[i]))
}

/// The pipeline requests one bucket gives rise to: a stamp-pass request
/// when its chunk has no cached stamp pipeline, then one simulation-pass
/// request per configured shader when it has no cached simulation
/// pipelines.
pub open spec fn requests_for_bucket(
    c: (int, int),
    need_stamp: bool,
    need_sim: bool,
    sims: Seq<Seq<char>>,
) -> Seq<RequestModel> {
    (if need_stamp {
        seq![RequestModel { chunk: c, layer: PassLayer::Stamp, shader: stamp_shader_spec() }]
    } else {
        Seq::empty()
    }) + (if need_sim {
        Seq::new(
            sims.len(),
            |k: int| RequestModel { chunk: c, layer: PassLayer::Simulation, shader: sims[k] },
        )
    } else {
        Seq::empty()
    })
}

/// The pipeline requests of a whole overlap table, bucket by bucket.
pub open spec fn requests_for(
    buckets: Seq<((int, int), Seq<StampModel>)>,
    sm: Seq<ChunkPipeline>,
    sm2: Seq<ChunkSimPipelines>,
    sims: Seq<Seq<char>>,
) -> Seq<RequestModel>
    decreases buckets.len(),
{
    if buckets.len() == 0 {
        Seq::empty()
    } else {
        requests_for_bucket(
            buckets[0].0,
            !has_stamp_pipeline(sm, buckets[0].0),
            !has_sim_pipelines(sm2, buckets[0].0),
            sims,
        ) + requests_for(buckets.skip(1), sm, sm2, sims)
    }
}

/// One recorded stamp batch binding is faithful to bucket `i` of the
/// canvas: right chunk, right geometry, the destination chunk's slot, and
/// the batch's stamps as the fixed-width partition prescribes.
pub open spec fn batch_bind_ok(
    bb: BatchBinding,
    c: (int, int),
    stamps: Seq<StampModel>,
    b: int,
    m: CanvasModel,
) -> bool {
    &&& coord_of(bb.chunk_position) == c
    &&& bb.chunk_size.x == m.chunk_w
    &&& bb.chunk_size.y == m.chunk_h
    &&& bb.dest_slot < m.order.len()
    &&& m.order[bb.dest_slot as int] == c
    &&& bb.stamps@.len() == BATCH_WIDTH
    &&& (forall|j: int|
        0 <= j < BATCH_WIDTH ==> (#[trigger] bb.stamps@[j])@ == (if b * BATCH_WIDTH + j
            < stamps.len() {
            stamps[b * BATCH_WIDTH + j]
        } else {
            stamps.last()
        }))
}

/// The recorded stamp bindings of one chunk are faithful to bucket `i` of
/// the canvas: one binding per batch of the bucket's stamps.
pub open spec fn bucket_binds_ok(e: ChunkBinds, m: CanvasModel, i: int) -> bool {
    let c = m.buckets[i].0;
    let stamps = m.buckets[i].1;
    &&& coord_of(e.chunk_position) == c
    &&& (stamps.len() == 0 ==> e.binds@.len() == 0)
    &&& (stamps.len() > 0 ==> e.binds@.len() == (stamps.len() + BATCH_WIDTH - 1) / (
    BATCH_WIDTH as int))
    &&& (forall|b: int|
        0 <= b < e.binds@.len() ==> batch_bind_ok(#[trigger] e.binds@[b], c, stamps, b, m))
}

/// The recorded simulation bindings of one chunk are faithful to bucket
/// `i` of the canvas: exactly one binding, for the bucket's chunk.
pub open spec fn sim_binds_ok(e: ChunkSimBinds, m: CanvasModel, i: int) -> bool {
    let c = m.buckets[i].0;
    &&& coord_of(e.chunk_position) == c
    &&& e.binds@.len() == 1
    &&& coord_of(e.binds@[0].chunk_position) == c
    &&& e.binds@[0].chunk_size.x == m.chunk_w
    &&& e.binds@[0].chunk_size.y == m.chunk_h
    &&& e.binds@[0].dest_slot < m.order.len()
    &&& m.order[e.binds@[0].dest_slot as int] == c
}

/// The dispatch for batch `b` of one chunk's stamp bindings.
pub open spec fn stamp_op(e: ChunkBinds, b: int, pipe: u64) -> DispatchOp {
    DispatchOp {
        chunk_position: e.chunk_position,
        layer: PassLayer::Stamp,
        batch_index: b as usize,
        pipeline: pipe,
        workgroups_x: (e.binds@[b].chunk_size.x / 8) as u32,
        workgroups_y: (e.binds@[b].chunk_size.y / 8) as u32,
    }
}

/// The stamp dispatches of a frame: for each chunk whose cached pipeline
/// has compiled, one dispatch per recorded batch, in order; chunks whose
/// pipeline is still compiling contribute nothing this frame.
pub open spec fn stamp_ops_for(
    bm: Seq<ChunkBinds>,
    sm: Seq<ChunkPipeline>,
    ready: Seq<u64>,
) -> Seq<DispatchOp>
    decreases bm.len(),
{
    if bm.len() == 0 {
        Seq::empty()
    } else {
        let pipe = stamp_pipeline_at(sm, coord_of(bm[0].chunk_position));
        (if ready.contains(pipe) {
            Seq::new(bm[0].binds@.len(), |b: int| stamp_op(bm[0], b, pipe))
        } else {
            Seq::empty()
        }) + stamp_ops_for(bm.skip(1), sm, ready)
    }
}

/// The dispatch for binding `b` of one chunk's simulation bindings.
pub open spec fn sim_op(e: ChunkSimBinds, b: int, pipe: u64) -> DispatchOp {
    DispatchOp {
        chunk_position: e.chunk_position,
        layer: PassLayer::Simulation,
        batch_index: b as usize,
        pipeline: pipe,
        workgroups_x: (e.binds@[b].chunk_size.x / 8) as u32,
        workgroups_y: (e.binds@[b].chunk_size.y / 8) as u32,
    }
}

/// The simulation dispatches of one chunk: for each cached pipeline that
/// has compiled, in shader order, one dispatch per recorded binding.
pub open spec fn sim_ops_entry(
    e: ChunkSimBinds,
    pipes: Seq<u64>,
    ready: Seq<u64>,
) -> Seq<DispatchOp>
    decreases pipes.len(),
{
    if pipes.len() == 0 {
        Seq::empty()
    } else {
        (if ready.contains(pipes[0]) {
            Seq::new(e.binds@.len(), |b: int| sim_op(e, b, pipes[0]))
        } else {
            Seq::empty()
        }) + sim_ops_entry(e, pipes.skip(1), ready)
    }
}

/// The simulation dispatches of a frame, chunk by chunk.
pub open spec fn sim_ops_for(
    bm2: Seq<ChunkSimBinds>,
    sm2: Seq<ChunkSimPipelines>,
    ready: Seq<u64>,
) -> Seq<DispatchOp>
    decreases bm2.len(),
{
    if bm2.len() == 0 {
        Seq::empty()
    } else {
        sim_ops_entry(bm2[0], sim_pipelines_at(sm2, coord_of(bm2[0].chunk_position)), ready)
            + sim_ops_for(bm2.skip(1), sm2, ready)
    }
}

impl RenderData {
    /// Unique chunk coordinates in each pipeline cache, so each chunk has
    /// at most one cached pipeline set per pass.
    pub open spec fn wf(self) -> bool {
        &&& (forall|i: int, j: int|
            0 <= i < j < self.shader_map@.len() ==> coord_of(
                (#[trigger] self.shader_map@[i]).chunk_position,
            ) != coord_of((#[trigger] self.shader_map@[j]).chunk_position))
        &&& (forall|i: int, j: int|
            0 <= i < j < self.shader_map_2@.len() ==> coord_of(
                (#[trigger] self.shader_map_2@[i]).chunk_position,
            ) != coord_of((#[trigger] self.shader_map_2@[j]).chunk_position))
    }

    /// Empty render state: no bindings recorded, no pipelines cached.
    pub fn new() -> (r: Self)
        ensures
            r.wf(),
            r.bind_map@.len() == 0,
            r.shader_map@.len() == 0,
            r.bind_map_2@.len() == 0,
            r.shader_map_2@.len() == 0,
    {
        RenderData {
            bind_map: Vec::new(),
            shader_map: Vec::new(),
            bind_map_2: Vec::new(),
            shader_map_2: Vec::new(),
        }
    }

    /// Caches the host's pipeline identifier for a chunk's stamp pass. The
    /// cache is persistent: a chunk registers at most one.
    pub fn register_stamp_pipeline(&mut self, chunk_position: IVec2, pipeline: u64)
        requires
            old(self).wf(),
            !has_stamp_pipeline(old(self).shader_map@, coord_of(chunk_position)),
        ensures
            final(self).wf(),
            final(self).shader_map@ == old(self).shader_map@.push(
                ChunkPipeline { chunk_position, pipeline },
            ),
            final(self).bind_map@ == old(self).bind_map@,
            final(self).bind_map_2@ == old(self).bind_map_2@,
            final(self).shader_map_2@ == old(self).shader_map_2@,
    {
        self.shader_map.push(ChunkPipeline { chunk_position, pipeline });
        proof {
            assert forall|i: int, j: int|
                0 <= i < j < self.shader_map@.len() implies coord_of(
                (#[trigger] self.shader_map@[i]).chunk_position,
            ) != coord_of((#[trigger] self.shader_map@[j]).chunk_position) by {
                if j == self.shader_map@.len() - 1 {
                    assert(!(exists|k: int|
                        0 <= k < old(self).shader_map@.len() && coord_of(
                            old(self).shader_map@[k].chunk_position,
                        ) == coord_of(chunk_position)));
                }
            }
        }
    }

    /// Caches the host's pipeline identifiers for a chunk's simulation
    /// passes, one per configured shader, in shader order.
    pub fn register_sim_pipelines(&mut self, chunk_position: IVec2, pipelines: Vec<u64>)
        requires
            old(self).wf(),
            !has_sim_pipelines(old(self).shader_map_2@, coord_of(chunk_position)),
        ensures
            final(self).wf(),
            final(self).shader_map_2@ == old(self).shader_map_2@.push(
                ChunkSimPipelines { chunk_position, pipelines },
            ),
            final(self).bind_map@ == old(self).bind_map@,
            final(self).bind_map_2@ == old(self).bind_map_2@,
            final(self).shader_map@ == old(self).shader_map@,
    {
        self.shader_map_2.push(ChunkSimPipelines { chunk_position, pipelines });
        proof {
            assert forall|i: int, j: int|
                0 <= i < j < self.shader_map_2@.len() implies coord_of(
                (#[trigger] self.shader_map_2@[i]).chunk_position,
            ) != coord_of((#[trigger] self.shader_map_2@[j]).chunk_position) by {
                if j == self.shader_map_2@.len() - 1 {
                    assert(!(exists|k: int|
                        0 <= k < old(self).shader_map_2@.len() && coord_of(
                            old(self).shader_map_2@[k].chunk_position,
                        ) == coord_of(chunk_position)));
                }
            }
        }
    }
}

/// The cached stamp pipeline of a chunk, when one was registered.
fn lookup_stamp_pipeline(sm: &Vec<ChunkPipeline>, key: IVec2) -> (r: Option<u64>)
    ensures
        match r {
            Some(p) => has_stamp_pipeline(sm@, coord_of(key)) && p == stamp_pipeline_at(
                sm@,
                coord_of(key),
            ),
            None => !has_stamp_pipeline(sm@, coord_of(key)),
        },
{
    let ghost c = coord_of(key);
    proof {
        assert(sm@.skip(0) =~= sm@);
    }
    let mut i: usize = 0;
    while i < sm.len()
        invariant
            i <= sm@.len(),
            c == coord_of(key),
            forall|j: int| 0 <= j < i ==> coord_of((#[trigger] sm@[j]).chunk_position) != c,
            stamp_pipeline_at(sm@, c) == stamp_pipeline_at(sm@.skip(i as int), c),
        decreases sm@.len() - i,
    {
        proof {
            assert(sm@.skip(i as int)[0] == sm@[i as int]);
        }
        if sm[i].chunk_position == key {
            return Some(sm[i].pipeline);
        }
        proof {
            assert(coord_of(sm@[i as int].chunk_position) != c) by {
                let a = sm@[i as int].chunk_position;
                assert(a.x == key.x && a.y == key.y ==> a == key);
            }
            assert(sm@.skip(i as int).skip(1) =~= sm@.skip(i + 1 as int));
        }
        i += 1;
    }
    None
}

/// The cached simulation pipelines of a chunk, when they were registered.
fn lookup_sim_pipelines<'a>(sm: &'a Vec<ChunkSimPipelines>, key: IVec2) -> (r: Option<
    &'a Vec<u64>,
>)
    ensures
        match r {
            Some(p) => has_sim_pipelines(sm@, coord_of(key)) && p@ == sim_pipelines_at(
                sm@,
                coord_of(key),
            ),
            None => !has_sim_pipelines(sm@, coord_of(key)),
        },
{
    let ghost c = coord_of(key);
    proof {
        assert(sm@.skip(0) =~= sm@);
    }
    let mut i: usize = 0;
    while i < sm.len()
        invariant
            i <= sm@.len(),
            c == coord_of(key),
            forall|j: int| 0 <= j < i ==> coord_of((#[trigger] sm@[j]).chunk_position) != c,
            sim_pipelines_at(sm@, c) == sim_pipelines_at(sm@.skip(i as int), c),
        decreases sm@.len() - i,
    {
        proof {
            assert(sm@.skip(i as int)[0] == sm@[i as int]);
        }
        if sm[i].chunk_position == key {
            return Some(&sm[i].pipelines);
        }
        proof {
            assert(coord_of(sm@[i as int].chunk_position) != c) by {
                let a = sm@[i as int].chunk_position;
                assert(a.x == key.x && a.y == key.y ==> a == key);
            }
            assert(sm@.skip(i as int).skip(1) =~= sm@.skip(i + 1 as int));
        }
        i += 1;
    }
    None
}

/// The 4 little-endian bytes of a `u32`, as the GPU interface stores
/// buffer data.
pub open spec fn le_u32_bytes(v: u32) -> Seq<u8> {
    vstd::bytes::spec_u32_to_le_bytes(v)
}

/// The 4 little-endian bytes of an `i32`: its two's-complement bits in
/// little-endian order.
pub open spec fn le_i32_bytes(v: i32) -> Seq<u8> {
    vstd::bytes::spec_u32_to_le_bytes(v as u32)
}

/// The little-endian bytes of an `i32`.
fn i32_to_le_bytes(v: i32) -> (s: Vec<u8>)
    ensures
        s@ == le_i32_bytes(v),
        s@.len() == 4,
{
    vstd::bytes::u32_to_le_bytes(#[verifier::truncate] (v as u32))
}

/// Contents of the uniform buffer holding a chunk's world origin: its two
/// `i32` components, `chunk_position * chunk_size`, little-endian as the
/// GPU reads buffer data.
pub fn chunk_origin_buffer(chunk_position: IVec2, chunk_size: UVec2) -> (r: Vec<u8>)
    requires
        chunk_size.x <= i32::MAX,
        chunk_size.y <= i32::MAX,
        i32::MIN <= chunk_position.x * chunk_size.x <= i32::MAX,
        i32::MIN <= chunk_position.y * chunk_size.y <= i32::MAX,
    ensures
        r@ == le_i32_bytes((chunk_position.x * chunk_size.x) as i32) + le_i32_bytes(
            (chunk_position.y * chunk_size.y) as i32,
        ),
        r@.len() == 8,
{
    proof {
        assert(i64::MIN <= (chunk_position.x as int) * (chunk_size.x as int)
            <= i64::MAX) by (nonlinear_arith)
            requires
                -0x8000_0000 <= chunk_position.x as int <= 0x7fff_ffff,
                0 <= chunk_size.x as int <= 0x7fff_ffff,
        ;
        assert(i64::MIN <= (chunk_position.y as int) * (chunk_size.y as int)
            <= i64::MAX) by (nonlinear_arith)
            requires
                -0x8000_0000 <= chunk_position.y as int <= 0x7fff_ffff,
                0 <= chunk_size.y as int <= 0x7fff_ffff,
        ;
    }
    let ox = ((chunk_position.x as i64) * (chunk_size.x as i64)) as i32;
    let oy = ((chunk_position.y as i64) * (chunk_size.y as i64)) as i32;
    let mut r = i32_to_le_bytes(ox);
    let mut ry = i32_to_le_bytes(oy);
    r.append(&mut ry);
    r
}

/// Contents of the uniform buffer holding the chunk dimensions: the two
/// `u32` components, little-endian as the GPU reads buffer data.
pub fn chunk_size_buffer(chunk_size: UVec2) -> (r: Vec<u8>)
    ensures
        r@ == le_u32_bytes(chunk_size.x) + le_u32_bytes(chunk_size.y),
        r@.len() == 8,
{
    let mut r = vstd::bytes::u32_to_le_bytes(chunk_size.x);
    let mut ry = vstd::bytes::u32_to_le_bytes(chunk_size.y);
    r.append(&mut ry);
    r
}

/// The concatenated little-endian `x, y` position pairs of a batch's
/// stamps, in slot order: 8 bytes per stamp.
pub open spec fn stamp_positions_bytes(s: Seq<PixelPositionedTexture>) -> Seq<u8>
    decreases s.len(),
{
    if s.len() == 0 {
        Seq::empty()
    } else {
        le_i32_bytes(s[0].position.x) + le_i32_bytes(s[0].position.y) + stamp_positions_bytes(
            s.skip(1),
        )
    }
}

/// The concatenated little-endian `width, height` size pairs of a batch's
/// stamps, in slot order: 8 bytes per stamp.
pub open spec fn stamp_sizes_bytes(s: Seq<PixelPositionedTexture>) -> Seq<u8>
    decreases s.len(),
{
    if s.len() == 0 {
        Seq::empty()
    } else {
        le_u32_bytes(s[0].size.x) + le_u32_bytes(s[0].size.y) + stamp_sizes_bytes(s.skip(1))
    }
}

/// Contents of the storage buffer holding a batch's stamp positions: each
/// stamp's two `i32` components in slot order, little-endian.
pub fn stamp_positions_buffer(stamps: &Vec<PixelPositionedTexture>) -> (r: Vec<u8>)
    requires
        stamps@.len() * 8 <= usize::MAX,
    ensures
        r@ == stamp_positions_bytes(stamps@),
        r@.len() == 8 * stamps@.len(),
{
    let mut r: Vec<u8> = Vec::new();
    proof {
        assert(stamps@.skip(0) =~= stamps@);
        assert(r@ + stamp_positions_bytes(stamps@) =~= stamp_positions_bytes(stamps@));
    }
    let mut i: usize = 0;
    while i < stamps.len()
        invariant
            i <= stamps@.len(),
            stamps@.len() * 8 <= usize::MAX,
            r@.len() == 8 * i,
            stamp_positions_bytes(stamps@) == r@ + stamp_positions_bytes(stamps@.skip(i as int)),
        decreases stamps@.len() - i,
    {
        let ghost pre = r@;
        let mut bx = i32_to_le_bytes(stamps[i].position.x);
        let mut by = i32_to_le_bytes(stamps[i].position.y);
        r.append(&mut bx);
        r.append(&mut by);
        proof {
            let s = stamps@;
            assert(s.skip(i as int)[0] == s[i as int]);
            assert(s.skip(i as int).skip(1) =~= s.skip(i + 1 as int));
            assert(pre + (le_i32_bytes(s[i as int].position.x) + le_i32_bytes(
                s[i as int].position.y,
            ) + stamp_positions_bytes(s.skip(i + 1 as int))) =~= r@ + stamp_positions_bytes(
                s.skip(i + 1 as int),
            ));
        }
        i += 1;
    }
    proof {
        assert(stamp_positions_bytes(stamps@.skip(stamps@.len() as int)) =~= Seq::<u8>::empty());
        assert(r@ + Seq::<u8>::empty() =~= r@);
    }
    r
}

/// Contents of the storage buffer holding a batch's stamp sizes: each
/// stamp's two `u32` components in slot order, little-endian.
pub fn stamp_sizes_buffer(stamps: &Vec<PixelPositionedTexture>) -> (r: Vec<u8>)
    requires
        stamps@.len() * 8 <= usize::MAX,
    ensures
        r@ == stamp_sizes_bytes(stamps@),
        r@.len() == 8 * stamps@.len(),
{
    let mut r: Vec<u8> = Vec::new();
    proof {
        assert(stamps@.skip(0) =~= stamps@);
        assert(r@ + stamp_sizes_bytes(stamps@) =~= stamp_sizes_bytes(stamps@));
    }
    let mut i: usize = 0;
    while i < stamps.len()
        invariant
            i <= stamps@.len(),
            stamps@.len() * 8 <= usize::MAX,
            r@.len() == 8 * i,
            stamp_sizes_bytes(stamps@) == r@ + stamp_sizes_bytes(stamps@.skip(i as int)),
        decreases stamps@.len() - i,
    {
        let ghost pre = r@;
        let mut bx = vstd::bytes::u32_to_le_bytes(stamps[i].size.x);
        let mut by = vstd::bytes::u32_to_le_bytes(stamps[i].size.y);
        r.append(&mut bx);
        r.append(&mut by);
        proof {
            let s = stamps@;
            assert(s.skip(i as int)[0] == s[i as int]);
            assert(s.skip(i as int).skip(1) =~= s.skip(i + 1 as int));
            assert(pre + (le_u32_bytes(s[i as int].size.x) + le_u32_bytes(s[i as int].size.y)
                + stamp_sizes_bytes(s.skip(i + 1 as int))) =~= r@ + stamp_sizes_bytes(
                s.skip(i + 1 as int),
            ));
        }
        i += 1;
    }
    proof {
        assert(stamp_sizes_bytes(stamps@.skip(stamps@.len() as int)) =~= Seq::<u8>::empty());
        assert(r@ + Seq::<u8>::empty() =~= r@);
    }
    r
}

/// Records this frame's bindings from the canvas's overlap table and says
/// which pipelines the host must queue.
///
/// For every bucket, the bucket's stamps are partitioned into fixed-width
/// batches and one stamp binding is recorded per batch, plus one simulation
/// binding for the chunk itself. For every bucket whose chunk has no cached
/// stamp pipeline, one stamp-pass request is returned; for every bucket
/// whose chunk has no cached simulation pipelines, one simulation-pass
/// request per configured shader. The host queues each requested pipeline
/// and registers the identifier back before dispatching.
#[verifier::rlimit(100)]
pub fn prepare_binds(pixel_map: &PixelMap, render_data: &mut RenderData) -> (requests: Vec<
    PipelineRequest,
>)
    requires
        pixel_map.wf(),
        old(render_data).wf(),
        old(render_data).bind_map@.len() == 0,
        old(render_data).bind_map_2@.len() == 0,
    ensures
        final(render_data).wf(),
        final(render_data).shader_map@ == old(render_data).shader_map@,
        final(render_data).shader_map_2@ == old(render_data).shader_map_2@,
        final(render_data).bind_map@.len() == pixel_map@.buckets.len(),
        pixel_map@.sim_shaders.len() == 0 ==> final(render_data).bind_map_2@.len() == 0,
        pixel_map@.sim_shaders.len() > 0 ==> final(render_data).bind_map_2@.len()
            == pixel_map@.buckets.len(),
        forall|i: int|
            0 <= i < pixel_map@.buckets.len() ==> bucket_binds_ok(
                #[trigger] final(render_data).bind_map@[i],
                pixel_map@,
                i,
            ),
        pixel_map@.sim_shaders.len() > 0 ==> (forall|i: int|
            0 <= i < pixel_map@.buckets.len() ==> sim_binds_ok(
                #[trigger] final(render_data).bind_map_2@[i],
                pixel_map@,
                i,
            )),
        requests_view(requests@) == requests_for(
            pixel_map@.buckets,
            old(render_data).shader_map@,
            old(render_data).shader_map_2@,
            pixel_map@.sim_shaders,
        ),
{
    proof {
        pixel_map.lemma_wf_model();
    }
    let ghost m = pixel_map@;
    let ghost sm0 = render_data.shader_map@;
    let ghost sm20 = render_data.shader_map_2@;
    let ghost simsv = m.sim_shaders;
    let chunk_size = pixel_map.chunk_size();
    let mut requests: Vec<PipelineRequest> = Vec::new();
    proof {
        assert(m.buckets.skip(0) =~= m.buckets);
        assert(requests_view(requests@) =~= Seq::<RequestModel>::empty());
        assert(requests_view(requests@) + requests_for(m.buckets, sm0, sm20, simsv)
            =~= requests_for(m.buckets, sm0, sm20, simsv));
    }
    let nb = pixel_map.bucket_count();
    let mut i: usize = 0;
    while i < nb
        invariant
            pixel_map.wf(),
            m == pixel_map@,
            m.wf(),
            sm0 == render_data.shader_map@,
            sm20 == render_data.shader_map_2@,
            simsv == m.sim_shaders,
            render_data.wf(),
            chunk_size.x == m.chunk_w,
            chunk_size.y == m.chunk_h,
            nb == m.buckets.len(),
            i <= nb,
            render_data.bind_map@.len() == i,
            render_data.bind_map_2@.len() == (if simsv.len() == 0 {
                0int
            } else {
                i as int
            }),
            forall|j: int|
                0 <= j < i ==> bucket_binds_ok(#[trigger] render_data.bind_map@[j], m, j),
            simsv.len() > 0 ==> (forall|j: int|
                0 <= j < i ==> sim_binds_ok(#[trigger] render_data.bind_map_2@[j], m, j)),
            requests_for(m.buckets, sm0, sm20, simsv) == requests_view(requests@)
                + requests_for(m.buckets.skip(i as int), sm0, sm20, simsv),
        decreases nb - i,
    {
        let ghost c = m.buckets[i as int].0;
        let ghost bstamps = m.buckets[i as int].1;
        let key = pixel_map.bucket_key(i);
        let stamps = pixel_map.bucket_stamps(i);
        let slot_opt = pixel_map.chunk_slot(key);
        proof {
            assert(m.data.contains_key(c));
            assert(slot_opt is Some);
        }
        let slot = slot_opt.unwrap();
        let mut batches = batch_with_repeat(stamps, BATCH_WIDTH);
        let ghost batches0 = batches@;
        let mut binds: Vec<BatchBinding> = Vec::new();
        proof {
            assert(batches@ =~= batches0.skip(0));
        }
        while batches.len() > 0
            invariant
                chunk_size.x == m.chunk_w,
                chunk_size.y == m.chunk_h,
                coord_of(key) == c,
                slot < m.order.len(),
                m.order[slot as int] == c,
                bstamps == stamps_view(stamps@),
                binds@.len() + batches@.len() == batches0.len(),
                batches@ == batches0.skip(binds@.len() as int),
                forall|b: int| 0 <= b < batches0.len() ==> (#[trigger] batches0[b])@.len()
                    == BATCH_WIDTH,
                forall|b: int, k: int|
                    0 <= b < batches0.len() && 0 <= k < BATCH_WIDTH
                        ==> #[trigger] batches0[b]@[k] == (if b * BATCH_WIDTH + k
                        < stamps@.len() {
                        stamps@[b * BATCH_WIDTH + k]
                    } else {
                        stamps@.last()
                    }),
                batches0.len() > 0 ==> stamps@.len() > 0,
                forall|b: int|
                    0 <= b < binds@.len() ==> batch_bind_ok(
                        #[trigger] binds@[b],
                        c,
                        bstamps,
                        b,
                        m,
                    ),
            decreases batches@.len(),
        {
            let ghost b = binds@.len() as int;
            let batch = batches.remove(0);
            proof {
                assert(batch == batches0[b]);
                assert(batches@ =~= batches0.skip(b + 1));
            }
            binds.push(
                BatchBinding { chunk_position: key, chunk_size, dest_slot: slot, stamps: batch },
            );
            proof {
                assert(batch_bind_ok(binds@[b], c, bstamps, b, m)) by {
                    assert forall|k: int| 0 <= k < BATCH_WIDTH implies (
                    #[trigger] binds@[b].stamps@[k])@ == (if b * BATCH_WIDTH + k
                        < bstamps.len() {
                        bstamps[b * BATCH_WIDTH + k]
                    } else {
                        bstamps.last()
                    }) by {
                        assert(binds@[b].stamps@[k] == batches0[b]@[k]);
                        assert(bstamps.len() == stamps@.len());
                        if b * BATCH_WIDTH + k < stamps@.len() {
                            assert(bstamps[b * BATCH_WIDTH + k] == stamps@[b * BATCH_WIDTH
                                + k]@);
                        } else {
                            assert(bstamps.last() == stamps@[stamps@.len() - 1]@);
                        }
                    }
                }
            }
        }
        proof {
            assert(bstamps.len() == stamps@.len());
            if bstamps.len() > 0 {
                assert(binds@.len() == (bstamps.len() + BATCH_WIDTH - 1) / (
                BATCH_WIDTH as int));
            }
        }
        render_data.bind_map.push(ChunkBinds { chunk_position: key, binds });
        if pixel_map.simulation_shaders().len() > 0 {
            let mut sim_binds: Vec<SimBinding> = Vec::new();
            sim_binds.push(SimBinding { chunk_position: key, chunk_size, dest_slot: slot });
            render_data.bind_map_2.push(ChunkSimBinds { chunk_position: key, binds: sim_binds });
        }
        let ghost req_pre = requests@;
        let need_stamp = match lookup_stamp_pipeline(&render_data.shader_map, key) {
            Some(_) => false,
            None => true,
        };
        if need_stamp {
            requests.push(
                PipelineRequest {
                    chunk_position: key,
                    layer: PassLayer::Stamp,
                    shader_path: "shaders/place_tex.wgsl".to_owned(),
                },
            );
        }
        let ghost req_mid = requests@;
        let need_sim = match lookup_sim_pipelines(&render_data.shader_map_2, key) {
            Some(_) => false,
            None => true,
        };
        if need_sim {
            let sims = pixel_map.simulation_shaders();
            let mut k: usize = 0;
            while k < sims.len()
                invariant
                    simsv == crate::pixel_map::strings_view(sims@),
                    k <= sims@.len(),
                    requests@.len() == req_mid.len() + k,
                    forall|q: int| 0 <= q < req_mid.len() ==> #[trigger] requests@[q] == req_mid[q],
                    coord_of(key) == c,
                    forall|q: int|
                        0 <= q < k ==> request_view(
                            #[trigger] requests@[req_mid.len() + q],
                        ) == (RequestModel {
                            chunk: c,
                            layer: PassLayer::Simulation,
                            shader: simsv[q],
                        }),
                decreases sims@.len() - k,
            {
                requests.push(
                    PipelineRequest {
                        chunk_position: key,
                        layer: PassLayer::Simulation,
                        shader_path: sims[k].clone(),
                    },
                );
                k += 1;
            }
        }
        proof {
            assert(need_stamp == !has_stamp_pipeline(sm0, c));
            assert(need_sim == !has_sim_pipelines(sm20, c));
            let head = requests_for_bucket(c, need_stamp, need_sim, simsv);
            let prev = requests_view(req_pre);
            let stamp_part: Seq<RequestModel> = if need_stamp {
                seq![RequestModel { chunk: c, layer: PassLayer::Stamp, shader: stamp_shader_spec() }]
            } else {
                Seq::<RequestModel>::empty()
            };
            let sim_part: Seq<RequestModel> = if need_sim {
                Seq::new(
                    simsv.len(),
                    |k: int| RequestModel {
                        chunk: c,
                        layer: PassLayer::Simulation,
                        shader: simsv[k],
                    },
                )
            } else {
                Seq::<RequestModel>::empty()
            };
            assert(head =~= stamp_part + sim_part);
            if need_stamp {
                assert(req_mid.len() == req_pre.len() + 1);
                assert(request_view(req_mid[req_pre.len() as int]) =~~= (RequestModel {
                    chunk: c,
                    layer: PassLayer::Stamp,
                    shader: stamp_shader_spec(),
                }));
            }
            if !need_sim {
                assert(requests@ == req_mid);
            }
            assert(requests_view(requests@) =~~= prev + head) by {
                assert(requests@.len() == req_pre.len() + stamp_part.len() + sim_part.len());
                assert forall|q: int|
                    0 <= q < requests@.len() implies request_view(#[trigger] requests@[q])
                    =~~= (prev + head)[q] by {
                    if q < req_pre.len() {
                        assert(requests@[q] == req_mid[q]);
                        assert(req_mid[q] == req_pre[q]);
                        assert((prev + head)[q] == prev[q]);
                    } else if q < req_mid.len() {
                        assert(requests@[q] == req_mid[q]);
                        assert((prev + head)[q] == head[q - req_pre.len()]);
                        assert(head[0] == stamp_part[0]);
                    } else {
                        assert((prev + head)[q] == head[q - req_pre.len()]);
                        assert(head[q - req_pre.len()] == sim_part[q - req_mid.len()]);
                        assert(request_view(requests@[req_mid.len() + (q - req_mid.len())])
                            == (RequestModel {
                            chunk: c,
                            layer: PassLayer::Simulation,
                            shader: simsv[q - req_mid.len()],
                        }));
                    }
                }
            }
            assert(m.buckets.skip(i as int)[0] == m.buckets[i as int]);
            assert(m.buckets.skip(i as int).skip(1) =~= m.buckets.skip(i + 1 as int));
            assert(requests_for(m.buckets.skip(i as int), sm0, sm20, simsv) == head
                + requests_for(m.buckets.skip(i + 1 as int), sm0, sm20, simsv));
            assert(requests_view(req_pre) + (head + requests_for(
                m.buckets.skip(i + 1 as int),
                sm0,
                sm20,
                simsv,
            )) =~= (requests_view(req_pre) + head) + requests_for(
                m.buckets.skip(i + 1 as int),
                sm0,
                sm20,
                simsv,
            ));
        }
        i += 1;
    }
    proof {
        assert(m.buckets.skip(nb as int) =~= Seq::<((int, int), Seq<StampModel>)>::empty());
        assert(requests_view(requests@) + Seq::<RequestModel>::empty() =~= requests_view(
            requests@,
        ));
    }
    requests
}

/// Submits the frame: one dispatch per recorded binding of every chunk
/// whose pipelines have finished compiling, stamp pass first, then the
/// simulation passes, and clears the per-frame binding tables. Chunks whose
/// pipelines are still compiling are skipped; their work is rebuilt from
/// the overlap table on a later frame. The pipeline caches persist.
#[verifier::rlimit(100)]
pub fn apply_ops(render_data: &mut RenderData, ready: &Vec<u64>) -> (ops: Vec<DispatchOp>)
    requires
        old(render_data).wf(),
        forall|i: int|
            0 <= i < old(render_data).bind_map@.len() ==> has_stamp_pipeline(
                old(render_data).shader_map@,
                coord_of((#[trigger] old(render_data).bind_map@[i]).chunk_position),
            ),
        forall|i: int|
            0 <= i < old(render_data).bind_map_2@.len() ==> has_sim_pipelines(
                old(render_data).shader_map_2@,
                coord_of((#[trigger] old(render_data).bind_map_2@[i]).chunk_position),
            ),
    ensures
        final(render_data).wf(),
        ops@ == stamp_ops_for(old(render_data).bind_map@, old(render_data).shader_map@, ready@)
            + sim_ops_for(
            old(render_data).bind_map_2@,
            old(render_data).shader_map_2@,
            ready@,
        ),
        final(render_data).bind_map@.len() == 0,
        final(render_data).bind_map_2@.len() == 0,
        final(render_data).shader_map@ == old(render_data).shader_map@,
        final(render_data).shader_map_2@ == old(render_data).shader_map_2@,
{
    let ghost bm0 = render_data.bind_map@;
    let ghost sm0 = render_data.shader_map@;
    let ghost bm20 = render_data.bind_map_2@;
    let ghost sm20 = render_data.shader_map_2@;
    let mut ops: Vec<DispatchOp> = Vec::new();
    proof {
        assert(bm0.skip(0) =~= bm0);
        assert(ops@ =~= Seq::<DispatchOp>::empty());
        assert(ops@ + stamp_ops_for(bm0, sm0, ready@) =~= stamp_ops_for(bm0, sm0, ready@));
    }
    let n1 = render_data.bind_map.len();
    let mut i: usize = 0;
    while i < n1
        invariant
            bm0 == render_data.bind_map@,
            sm0 == render_data.shader_map@,
            n1 == bm0.len(),
            i <= n1,
            forall|j: int|
                0 <= j < bm0.len() ==> has_stamp_pipeline(
                    sm0,
                    coord_of((#[trigger] bm0[j]).chunk_position),
                ),
            stamp_ops_for(bm0, sm0, ready@) == ops@ + stamp_ops_for(
                bm0.skip(i as int),
                sm0,
                ready@,
            ),
        decreases n1 - i,
    {
        proof {
            assert(bm0.skip(i as int)[0] == bm0[i as int]);
            assert(bm0.skip(i as int).skip(1) =~= bm0.skip(i + 1 as int));
        }
        let key = render_data.bind_map[i].chunk_position;
        let pipe_opt = lookup_stamp_pipeline(&render_data.shader_map, key);
        let pipe = pipe_opt.unwrap();
        let ghost ops_pre = ops@;
        if contains_id(ready, pipe) {
            let nbinds = render_data.bind_map[i].binds.len();
            let mut b: usize = 0;
            while b < nbinds
                invariant
                    bm0 == render_data.bind_map@,
                    i < bm0.len(),
                    nbinds == bm0[i as int].binds@.len(),
                    b <= nbinds,
                    pipe == stamp_pipeline_at(sm0, coord_of(bm0[i as int].chunk_position)),
                    ops@.len() == ops_pre.len() + b,
                    forall|q: int| 0 <= q < ops_pre.len() ==> #[trigger] ops@[q] == ops_pre[q],
                    forall|q: int|
                        0 <= q < b ==> #[trigger] ops@[ops_pre.len() + q] == stamp_op(
                            bm0[i as int],
                            q,
                            pipe,
                        ),
                decreases nbinds - b,
            {
                let e = &render_data.bind_map[i];
                ops.push(
                    DispatchOp {
                        chunk_position: e.chunk_position,
                        layer: PassLayer::Stamp,
                        batch_index: b,
                        pipeline: pipe,
                        workgroups_x: e.binds[b].chunk_size.x / 8,
                        workgroups_y: e.binds[b].chunk_size.y / 8,
                    },
                );
                b += 1;
            }
            proof {
                let target = ops_pre + Seq::new(
                    bm0[i as int].binds@.len(),
                    |q: int| stamp_op(bm0[i as int], q, pipe),
                );
                assert forall|j: int| 0 <= j < ops@.len() implies ops@[j] == target[j] by {
                    if j >= ops_pre.len() {
                        let q = j - ops_pre.len();
                        assert(ops@[ops_pre.len() + q] == stamp_op(bm0[i as int], q, pipe));
                    }
                }
                assert(ops@ =~= target);
                assert(ops_pre + (Seq::new(
                    bm0[i as int].binds@.len(),
                    |q: int| stamp_op(bm0[i as int], q, pipe),
                ) + stamp_ops_for(bm0.skip(i + 1 as int), sm0, ready@)) =~= ops@
                    + stamp_ops_for(bm0.skip(i + 1 as int), sm0, ready@));
            }
        } else {
            proof {
                assert(ops_pre + (Seq::<DispatchOp>::empty() + stamp_ops_for(
                    bm0.skip(i + 1 as int),
                    sm0,
                    ready@,
                )) =~= ops@ + stamp_ops_for(bm0.skip(i + 1 as int), sm0, ready@));
            }
        }
        i += 1;
    }
    let ghost stamp_done = ops@;
    proof {
        assert(bm0.skip(n1 as int) =~= Seq::<ChunkBinds>::empty());
        assert(stamp_done + Seq::<DispatchOp>::empty() =~= stamp_done);
        assert(stamp_done == stamp_ops_for(bm0, sm0, ready@));
        assert(bm20.skip(0) =~= bm20);
        assert(stamp_done + sim_ops_for(bm20, sm20, ready@) == stamp_done + sim_ops_for(
            bm20.skip(0),
            sm20,
            ready@,
        ));
    }
    let n2 = render_data.bind_map_2.len();
    let mut i2: usize = 0;
    while i2 < n2
        invariant
            bm20 == render_data.bind_map_2@,
            sm20 == render_data.shader_map_2@,
            n2 == bm20.len(),
            i2 <= n2,
            forall|j: int|
                0 <= j < bm20.len() ==> has_sim_pipelines(
                    sm20,
                    coord_of((#[trigger] bm20[j]).chunk_position),
                ),
            stamp_done + sim_ops_for(bm20, sm20, ready@) == ops@ + sim_ops_for(
                bm20.skip(i2 as int),
                sm20,
                ready@,
            ),
        decreases n2 - i2,
    {
        proof {
            assert(bm20.skip(i2 as int)[0] == bm20[i2 as int]);
            assert(bm20.skip(i2 as int).skip(1) =~= bm20.skip(i2 + 1 as int));
        }
        let key = render_data.bind_map_2[i2].chunk_position;
        let ghost c = coord_of(key);
        let ghost pipes = sim_pipelines_at(sm20, c);
        let pipes_vec: Vec<u64> = match lookup_sim_pipelines(&render_data.shader_map_2, key) {
            Some(pv) => copy_ids(pv),
            None => {
                proof {
                    assert(false);
                }
                Vec::new()
            },
        };
        let npipes = pipes_vec.len();
        let ghost entry_pre = ops@;
        proof {
            assert(pipes.skip(0) =~= pipes);
            assert(entry_pre + sim_ops_entry(bm20[i2 as int], pipes, ready@) == entry_pre
                + sim_ops_entry(bm20[i2 as int], pipes.skip(0), ready@));
        }
        let mut p: usize = 0;
        while p < npipes
            invariant
                bm20 == render_data.bind_map_2@,
                sm20 == render_data.shader_map_2@,
                i2 < bm20.len(),
                c == coord_of(bm20[i2 as int].chunk_position),
                pipes == sim_pipelines_at(sm20, c),
                pipes_vec@ == pipes,
                npipes == pipes.len(),
                p <= npipes,
                entry_pre + sim_ops_entry(bm20[i2 as int], pipes, ready@) == ops@
                    + sim_ops_entry(bm20[i2 as int], pipes.skip(p as int), ready@),
            decreases npipes - p,
        {
            proof {
                assert(pipes.skip(p as int)[0] == pipes[p as int]);
                assert(pipes.skip(p as int).skip(1) =~= pipes.skip(p + 1 as int));
            }
            let pipe = pipes_vec[p];
            let ghost ops_pre = ops@;
            if contains_id(ready, pipe) {
                let nbinds = render_data.bind_map_2[i2].binds.len();
                let mut b: usize = 0;
                while b < nbinds
                    invariant
                        bm20 == render_data.bind_map_2@,
                        i2 < bm20.len(),
                        nbinds == bm20[i2 as int].binds@.len(),
                        b <= nbinds,
                        pipe == pipes[p as int],
                        p < pipes.len(),
                        ops@.len() == ops_pre.len() + b,
                        forall|q: int| 0 <= q < ops_pre.len() ==> #[trigger] ops@[q] == ops_pre[q],
                        forall|q: int|
                            0 <= q < b ==> #[trigger] ops@[ops_pre.len() + q] == sim_op(
                                bm20[i2 as int],
                                q,
                                pipe,
                            ),
                    decreases nbinds - b,
                {
                    let e = &render_data.bind_map_2[i2];
                    ops.push(
                        DispatchOp {
                            chunk_position: e.chunk_position,
                            layer: PassLayer::Simulation,
                            batch_index: b,
                            pipeline: pipe,
                            workgroups_x: e.binds[b].chunk_size.x / 8,
                            workgroups_y: e.binds[b].chunk_size.y / 8,
                        },
                    );
                    b += 1;
                }
                proof {
                    let target = ops_pre + Seq::new(
                        bm20[i2 as int].binds@.len(),
                        |q: int| sim_op(bm20[i2 as int], q, pipe),
                    );
                    assert forall|j: int| 0 <= j < ops@.len() implies ops@[j] == target[j] by {
                        if j >= ops_pre.len() {
                            let q = j - ops_pre.len();
                            assert(ops@[ops_pre.len() + q] == sim_op(bm20[i2 as int], q, pipe));
                        }
                    }
                    assert(ops@ =~= target);
                    assert(ops_pre + (Seq::new(
                        bm20[i2 as int].binds@.len(),
                        |q: int| sim_op(bm20[i2 as int], q, pipe),
                    ) + sim_ops_entry(bm20[i2 as int], pipes.skip(p + 1 as int), ready@))
                        =~= ops@ + sim_ops_entry(
                        bm20[i2 as int],
                        pipes.skip(p + 1 as int),
                        ready@,
                    ));
                }
            } else {
                proof {
                    assert(ops_pre + (Seq::<DispatchOp>::empty() + sim_ops_entry(
                        bm20[i2 as int],
                        pipes.skip(p + 1 as int),
                        ready@,
                    )) =~= ops@ + sim_ops_entry(
                        bm20[i2 as int],
                        pipes.skip(p + 1 as int),
                        ready@,
                    ));
                }
            }
            p += 1;
        }
        proof {
            assert(pipes.skip(npipes as int) =~= Seq::<u64>::empty());
            assert(ops@ + Seq::<DispatchOp>::empty() =~= ops@);
            assert(ops@ == entry_pre + sim_ops_entry(bm20[i2 as int], pipes, ready@));
            assert(entry_pre + (sim_ops_entry(bm20[i2 as int], pipes, ready@) + sim_ops_for(
                bm20.skip(i2 + 1 as int),
                sm20,
                ready@,
            )) =~= ops@ + sim_ops_for(bm20.skip(i2 + 1 as int), sm20, ready@));
        }
        i2 += 1;
    }
    proof {
        assert(bm20.skip(n2 as int) =~= Seq::<ChunkSimBinds>::empty());
        assert(ops@ + Seq::<DispatchOp>::empty() =~= ops@);
    }
    render_data.bind_map.clear();
    render_data.bind_map_2.clear();
    ops
}

/// A copy of a pipeline identifier list.
fn copy_ids(v: &Vec<u64>) -> (r: Vec<u64>)
    ensures
        r@ == v@,
{
    let mut r: Vec<u64> = Vec::new();
    let mut i: usize = 0;
    while i < v.len()
        invariant
            i <= v@.len(),
            r@ == v@.subrange(0, i as int),
        decreases v@.len() - i,
    {
        r.push(v[i]);
        proof {
            assert(r@ =~= v@.subrange(0, i + 1 as int));
        }
        i += 1;
    }
    proof {
        assert(v@.subrange(0, v@.len() as int) =~= v@);
    }
    r
}

/// Whether the host reported this pipeline identifier as compiled.
fn contains_id(ids: &Vec<u64>, id: u64) -> (r: bool)
    ensures
        r == ids@.contains(id),
{
    let mut i: usize = 0;
    while i < ids.len()
        invariant
            i <= ids@.len(),
            forall|j: int| 0 <= j < i ==> ids@[j] != id,
        decreases ids@.len() - i,
    {
        if ids[i] == id {
            return true;
        }
        i += 1;
    }
    false
}

} // verus!
