use vstd::prelude::*;
use crate::chunk_position::{
    chunk_size_in_range, get_chunk_index_i, get_chunk_outer_i, lemma_index_at_bounds, IVec2, UVec2,
};
use crate::model::{
    bucket_add, bucket_key_index, bucket_keys, buckets_has_key, distribute_coords,
    distribute_stamps, ensure_all_m, ensure_chunk_m, footprint_coords, lemma_bucket_key_index,
    lemma_footprint_nonempty, read_pixel_m, rect_coords, stamp_in_range, update4, write_all_m,
    write_pixel_m, CanvasModel, StampModel,
};
use crate::chunk_position::lemma_div_between;
use crate::{PixelMapError, SamplingMode};

verus! {

/// Marker for an entity the host spawned to display one chunk's texture.
pub struct PixelChunk;

/// A stamp: a positioned source image queued for GPU-side compositing into
/// the canvas. The `image` field is the host's identifier for the source
/// texture.
#[derive(Clone, Copy, PartialEq, Eq, Structural, Debug)]
pub struct PixelPositionedTexture {
    /// World position of the stamp's corner.
    pub position: IVec2,
    /// Host identifier of the source texture.
    pub image: u64,
    /// Extent of the stamp in pixels.
    pub size: UVec2,
}

impl View for PixelPositionedTexture {
    type V = StampModel;

    open spec fn view(&self) -> StampModel {
        StampModel {
            pos: (self.position.x as int, self.position.y as int),
            size: (self.size.x as int, self.size.y as int),
            image: self.image as int,
        }
    }
}

/// What the host must do after a chunk was materialized: spawn a visual for
/// slot `slot` showing that chunk's texture, positioned at
/// `(world_x, world_y)` and parented under entity `parent`.
#[derive(Clone, Copy, PartialEq, Eq, Structural, Debug)]
pub struct ChunkSpawn {
    /// Coordinate of the new chunk in the chunk grid.
    pub chunk_position: IVec2,
    /// Slot index of the new chunk's pixel buffer.
    pub slot: usize,
    /// World-space x of the chunk's origin: `chunk_position.x * chunk_w`.
    pub world_x: i64,
    /// World-space y of the chunk's origin: `chunk_position.y * chunk_h`.
    pub world_y: i64,
    /// Entity to parent the visual under.
    pub parent: u64,
}

/// One entry of the per-frame overlap table: the stamps whose padded
/// footprint covers the chunk at `chunk_position`, in enqueue order.
#[derive(Clone)]
pub struct ChunkBucket {
    /// The covered chunk.
    pub chunk_position: IVec2,
    /// The covering stamps, in enqueue order.
    pub stamps: Vec<PixelPositionedTexture>,
}

/// The chunk grid coordinate pair of a coordinate vector.
pub open spec fn coord_of(v: IVec2) -> (int, int) {
    (v.x as int, v.y as int)
}

/// The coordinate pairs of a sequence of coordinate vectors.
pub open spec fn coords_of(ps: Seq<IVec2>) -> Seq<(int, int)> {
    Seq::new(ps.len(), |i: int| coord_of(ps[i]))
}

/// No two entries hold the same coordinate.
pub open spec fn coords_unique(ps: Seq<IVec2>) -> bool {
    forall|i: int, j: int| 0 <= i < j < ps.len() ==> coord_of(ps[i]) != coord_of(ps[j])
}

/// The models of a sequence of stamps.
pub open spec fn stamps_view(s: Seq<PixelPositionedTexture>) -> Seq<StampModel> {
    Seq::new(s.len(), |i: int| s[i]@)
}

/// The model of the overlap table.
pub open spec fn buckets_view(bs: Seq<ChunkBucket>) -> Seq<((int, int), Seq<StampModel>)> {
    Seq::new(bs.len(), |i: int| (coord_of(bs[i].chunk_position), stamps_view(bs[i].stamps@)))
}

/// The model of the queued CPU pixel writes.
pub open spec fn pixel_queue_view(ps: Seq<IVec2>, cs: Seq<[u8; 4]>) -> Seq<((int, int), Seq<u8>)> {
    Seq::new(ps.len(), |i: int| (coord_of(ps[i]), cs[i]@))
}

/// The character sequences of a sequence of strings.
pub open spec fn strings_view(ss: Seq<String>) -> Seq<Seq<char>> {
    Seq::new(ss.len(), |i: int| ss[i]@)
}

/// The sparse chunk store as a map from chunk coordinate to pixel buffer:
/// slot `i` of `ps` names the chunk whose buffer is slot `i` of `bufs`.
pub open spec fn data_map(ps: Seq<IVec2>, bufs: Seq<Vec<u8>>) -> Map<(int, int), Seq<u8>>
    recommends
        ps.len() == bufs.len(),
    decreases ps.len(),
{
    if ps.len() == 0 {
        Map::empty()
    } else {
        data_map(ps.drop_last(), bufs.drop_last()).insert(coord_of(ps.last()), bufs.last()@)
    }
}

/// The store map holds a coordinate exactly when some slot does.
proof fn lemma_data_map_contains(ps: Seq<IVec2>, bufs: Seq<Vec<u8>>, c: (int, int))
    requires
        ps.len() == bufs.len(),
    ensures
        data_map(ps, bufs).contains_key(c) <==> (exists|i: int|
            0 <= i < ps.len() && coord_of(ps[i]) == c),
    decreases ps.len(),
{
    if ps.len() > 0 {
        lemma_data_map_contains(ps.drop_last(), bufs.drop_last(), c);
        if coord_of(ps.last()) == c {
            assert(coord_of(ps[ps.len() - 1]) == c);
        } else {
            assert((exists|i: int| 0 <= i < ps.len() - 1 && coord_of(ps.drop_last()[i]) == c)
                <==> (exists|i: int| 0 <= i < ps.len() && coord_of(ps[i]) == c)) by {
                if exists|i: int| 0 <= i < ps.len() && coord_of(ps[i]) == c {
                    let i = choose|i: int| 0 <= i < ps.len() && coord_of(ps[i]) == c;
                    assert(coord_of(ps.drop_last()[i]) == c);
                }
            }
        }
    }
}

/// The store map sends the coordinate of slot `i` to the buffer of slot `i`.
proof fn lemma_data_map_at(ps: Seq<IVec2>, bufs: Seq<Vec<u8>>, i: int)
    requires
        ps.len() == bufs.len(),
        coords_unique(ps),
        0 <= i < ps.len(),
    ensures
        data_map(ps, bufs).contains_key(coord_of(ps[i])),
        data_map(ps, bufs)[coord_of(ps[i])] == bufs[i]@,
    decreases ps.len(),
{
    if i < ps.len() - 1 {
        lemma_data_map_at(ps.drop_last(), bufs.drop_last(), i);
        assert(coord_of(ps[i]) != coord_of(ps.last()));
    }
}

/// Replacing the buffer of slot `i` updates the store map at slot `i`'s
/// coordinate and nothing else.
proof fn lemma_data_map_update(ps: Seq<IVec2>, bufs: Seq<Vec<u8>>, i: int, nb: Vec<u8>)
    requires
        ps.len() == bufs.len(),
        coords_unique(ps),
        0 <= i < ps.len(),
    ensures
        data_map(ps, bufs.update(i, nb)) == data_map(ps, bufs).insert(coord_of(ps[i]), nb@),
    decreases ps.len(),
{
    let left = data_map(ps, bufs.update(i, nb));
    let right = data_map(ps, bufs).insert(coord_of(ps[i]), nb@);
    assert forall|c: (int, int)| left.contains_key(c) <==> right.contains_key(c) by {
        lemma_data_map_contains(ps, bufs.update(i, nb), c);
        lemma_data_map_contains(ps, bufs, c);
        if c == coord_of(ps[i]) {
            assert(exists|j: int| 0 <= j < ps.len() && coord_of(ps[j]) == c);
        }
    }
    assert forall|c: (int, int)| left.contains_key(c) implies left[c] == right[c] by {
        lemma_data_map_contains(ps, bufs.update(i, nb), c);
        let j = choose|j: int| 0 <= j < ps.len() && coord_of(ps[j]) == c;
        lemma_data_map_at(ps, bufs.update(i, nb), j);
        if c == coord_of(ps[i]) {
            assert(j == i);
            assert(left[c] == nb@);
        } else {
            assert(j != i);
            lemma_data_map_at(ps, bufs, j);
            assert(left[c] == bufs[j]@);
        }
    }
    assert(left =~= right);
}

/// Registering one more slot inserts its coordinate into the store map.
proof fn lemma_data_map_push(ps: Seq<IVec2>, bufs: Seq<Vec<u8>>, p: IVec2, b: Vec<u8>)
    requires
        ps.len() == bufs.len(),
    ensures
        data_map(ps.push(p), bufs.push(b)) == data_map(ps, bufs).insert(coord_of(p), b@),
{
    assert(ps.push(p).drop_last() =~= ps);
    assert(bufs.push(b).drop_last() =~= bufs);
    assert(ps.push(p).last() == p);
    assert(bufs.push(b).last() == b);
}

/// A sparse, effectively infinite 2D pixel canvas made of fixed-size chunks.
///
/// Chunks are materialized lazily on first touch, either by a CPU pixel
/// write or by a stamp whose padded footprint covers them. The CPU paint
/// path reads and writes the per-chunk RGBA buffers held here; the GPU paint
/// path queues stamps which a per-frame pass distributes into per-chunk
/// buckets for batched compute dispatch.
#[derive(Clone)]
pub struct PixelMap {
    chunk_size: UVec2,
    image_data: Vec<Vec<u8>>,
    positions: Vec<IVec2>,
    simulation_shaders: Vec<String>,
    empty_texture: Vec<u8>,
    sampler: SamplingMode,
    root_entity: u64,
    default_chunk_color: [u8; 4],
    texture_queue: Vec<PixelPositionedTexture>,
    texture_to_chunk_posses: Vec<ChunkBucket>,
    set_pixel_queue_positions: Vec<IVec2>,
    set_pixel_queue_colors: Vec<[u8; 4]>,
}

impl View for PixelMap {
    type V = CanvasModel;

    closed spec fn view(&self) -> CanvasModel {
        CanvasModel {
            chunk_w: self.chunk_size.x as int,
            chunk_h: self.chunk_size.y as int,
            root: self.root_entity as int,
            default_color: self.default_chunk_color@,
            template: self.empty_texture@,
            order: coords_of(self.positions@),
            data: data_map(self.positions@, self.image_data@),
            queue: stamps_view(self.texture_queue@),
            buckets: buckets_view(self.texture_to_chunk_posses@),
            pixel_queue: pixel_queue_view(
                self.set_pixel_queue_positions@,
                self.set_pixel_queue_colors@,
            ),
            sim_shaders: strings_view(self.simulation_shaders@),
            sampler: self.sampler,
        }
    }
}

/// The byte sequence filling `pixel_count` pixels with the 4-byte color `c`.
pub open spec fn solid_fill(pixel_count: int, c: Seq<u8>) -> Seq<u8> {
    Seq::new((4 * pixel_count) as nat, |i: int| c[i % 4])
}

/// A copy of a byte vector, made without trusting any library clone.
fn clone_bytes(v: &Vec<u8>) -> (r: Vec<u8>)
    ensures
        r@ == v@,
{
    let mut r: Vec<u8> = Vec::new();
    let mut i: usize = 0;
    while i < v.len()
        invariant
            i <= v@.len(),
            r@ == v@.subrange(0, i as int),
        decreases v@.len() - i,
    {
        r.push(v[i]);
        proof {
            assert(r@ =~= v@.subrange(0, i + 1 as int));
        }
        i += 1;
    }
    proof {
        assert(v@.subrange(0, v@.len() as int) =~= v@);
    }
    r
}

impl PixelMap {
    /// Internal consistency of the canvas: valid chunk dimensions, parallel `positions`/`image_data` tables with injective
    /// coordinates, buffers of the chunk's byte length, an overlap table
    /// over materialized chunks only, queued stamps with representable
    /// footprints, and paired CPU write queues.
    pub closed spec fn wf(&self) -> bool {
        &&& chunk_size_in_range(self.chunk_size)
        &&& self.chunk_size.x * self.chunk_size.y * 4 <= usize::MAX
        &&& self.image_data@.len() == self.positions@.len()
        &&& coords_unique(self.positions@)
        &&& (forall|i: int|
            0 <= i < self.image_data@.len() ==> (#[trigger] self.image_data@[i])@.len()
                == self.chunk_size.x * self.chunk_size.y * 4)
        &&& self.empty_texture@.len() == self.chunk_size.x * self.chunk_size.y * 4
        &&& (forall|i: int, j: int|
            0 <= i < j < self.texture_to_chunk_posses@.len() ==> coord_of(
                (#[trigger] self.texture_to_chunk_posses@[i]).chunk_position,
            ) != coord_of((#[trigger] self.texture_to_chunk_posses@[j]).chunk_position))
        &&& (forall|i: int|
            0 <= i < self.texture_to_chunk_posses@.len() ==> (exists|j: int|
                0 <= j < self.positions@.len() && self.positions@[j] == (
                #[trigger] self.texture_to_chunk_posses@[i]).chunk_position))
        &&& (forall|i: int, j: int|
            0 <= i < self.texture_to_chunk_posses@.len() && 0 <= j
                < self.texture_to_chunk_posses@[i].stamps@.len() ==> stamp_in_range(
                (#[trigger] self.texture_to_chunk_posses@[i].stamps@[j])@,
            ))
        &&& (forall|i: int|
            0 <= i < self.texture_queue@.len() ==> stamp_in_range(
                (#[trigger] self.texture_queue@[i])@,
            ))
        &&& self.set_pixel_queue_positions@.len() == self.set_pixel_queue_colors@.len()
    }

    /// A well-formed canvas has a well-formed model.
    pub proof fn lemma_wf_model(&self)
        requires
            self.wf(),
        ensures
            self@.wf(),
    {
        let m = self@;
        assert forall|c: (int, int)| #[trigger] m.data.contains_key(c) <==> m.order.contains(c) by {
            lemma_data_map_contains(self.positions@, self.image_data@, c);
            if exists|i: int| 0 <= i < self.positions@.len() && coord_of(self.positions@[i]) == c {
                let i = choose|i: int|
                    0 <= i < self.positions@.len() && coord_of(self.positions@[i]) == c;
                assert(m.order[i] == c);
            }
            if m.order.contains(c) {
                let i = choose|i: int| 0 <= i < m.order.len() && m.order[i] == c;
                assert(coord_of(self.positions@[i]) == c);
            }
        }
        assert forall|c: (int, int)| m.data.contains_key(c) implies (#[trigger] m.data[c]).len()
            == m.buffer_len() by {
            lemma_data_map_contains(self.positions@, self.image_data@, c);
            let i = choose|i: int|
                0 <= i < self.positions@.len() && coord_of(self.positions@[i]) == c;
            lemma_data_map_at(self.positions@, self.image_data@, i);
        }
        assert forall|i: int| 0 <= i < m.buckets.len() implies m.data.contains_key(
            (#[trigger] m.buckets[i]).0,
        ) by {
            let b = self.texture_to_chunk_posses@[i];
            let j = choose|j: int|
                0 <= j < self.positions@.len() && self.positions@[j] == b.chunk_position;
            lemma_data_map_at(self.positions@, self.image_data@, j);
        }
        assert forall|i: int, j: int|
            0 <= i < m.buckets.len() && 0 <= j < m.buckets[i].1.len() implies stamp_in_range(
            #[trigger] m.buckets[i].1[j],
        ) by {
            assert(m.buckets[i].1[j] == (self.texture_to_chunk_posses@[i].stamps@[j])@);
        }
    }

    /// Creates an empty canvas.
    ///
    /// The chunk dimensions must be positive and small enough for exact
    /// signed arithmetic and for a chunk's RGBA buffer to be addressable;
    /// for full GPU coverage the host picks dimensions divisible by the
    /// dispatch tile width of 8, since workgroup counts are rounded down. A supplied template must
    /// have exactly one RGBA byte quad per chunk texel; when none is
    /// supplied the template is a solid fill with the default color, itself
    /// `[0, 0, 0, 0]` when not supplied.
    pub fn new(
        chunk_size: UVec2,
        root_entity: u64,
        empty_texture: Option<Vec<u8>>,
        sampler: Option<SamplingMode>,
        default_chunk_color: Option<[u8; 4]>,
        simulation_shaders: Vec<String>,
    ) -> (r: Self)
        requires
            chunk_size_in_range(chunk_size),
            chunk_size.x * chunk_size.y * 4 <= usize::MAX,
            empty_texture matches Some(t) ==> t@.len() == chunk_size.x * chunk_size.y * 4,
        ensures
            r.wf(),
            r@.chunk_w == chunk_size.x,
            r@.chunk_h == chunk_size.y,
            r@.root == root_entity,
            r@.default_color == (match default_chunk_color {
                Some(c) => c@,
                None => seq![0u8, 0u8, 0u8, 0u8],
            }),
            r@.template == (match empty_texture {
                Some(t) => t@,
                None => solid_fill(chunk_size.x * chunk_size.y, r@.default_color),
            }),
            r@.sampler == (match sampler {
                Some(s) => s,
                None => SamplingMode::Nearest,
            }),
            r@.sim_shaders == strings_view(simulation_shaders@),
            r@.order == Seq::<(int, int)>::empty(),
            r@.data == Map::<(int, int), Seq<u8>>::empty(),
            r@.queue == Seq::<StampModel>::empty(),
            r@.buckets == Seq::<((int, int), Seq<StampModel>)>::empty(),
            r@.pixel_queue == Seq::<((int, int), Seq<u8>)>::empty(),
    {
        let color: [u8; 4] = match default_chunk_color {
            Some(c) => c,
            None => [0u8, 0u8, 0u8, 0u8],
        };
        proof {
            assert(color@ =~= (match default_chunk_color {
                Some(c) => c@,
                None => seq![0u8, 0u8, 0u8, 0u8],
            }));
        }
        let template: Vec<u8> = match empty_texture {
            Some(t) => t,
            None => solid_template(chunk_size, color),
        };
        let r = PixelMap {
            chunk_size,
            image_data: Vec::new(),
            positions: Vec::new(),
            simulation_shaders,
            empty_texture: template,
            sampler: match sampler {
                Some(s) => s,
                None => SamplingMode::Nearest,
            },
            root_entity,
            default_chunk_color: color,
            texture_queue: Vec::new(),
            texture_to_chunk_posses: Vec::new(),
            set_pixel_queue_positions: Vec::new(),
            set_pixel_queue_colors: Vec::new(),
        };
        proof {
            assert(r@.order =~= Seq::<(int, int)>::empty());
            assert(r@.queue =~= Seq::<StampModel>::empty());
            assert(r@.buckets =~= Seq::<((int, int), Seq<StampModel>)>::empty());
            assert(r@.pixel_queue =~= Seq::<((int, int), Seq<u8>)>::empty());
        }
        r
    }

    /// The canvas's chunk dimensions in pixels.
    pub fn chunk_size(&self) -> (r: UVec2)
        ensures
            r.x == self@.chunk_w,
            r.y == self@.chunk_h,
    {
        self.chunk_size
    }

    /// How many chunks are materialized.
    pub fn chunk_count(&self) -> (r: usize)
        ensures
            r == self@.order.len(),
    {
        self.positions.len()
    }

    /// How many buckets the current overlap table holds.
    pub fn bucket_count(&self) -> (r: usize)
        ensures
            r == self@.buckets.len(),
    {
        self.texture_to_chunk_posses.len()
    }

    /// The chunk coordinate of bucket `i` of the overlap table.
    pub fn bucket_key(&self, i: usize) -> (r: IVec2)
        requires
            i < self@.buckets.len(),
        ensures
            coord_of(r) == self@.buckets[i as int].0,
    {
        self.texture_to_chunk_posses[i].chunk_position
    }

    /// The stamps of bucket `i` of the overlap table, in enqueue order.
    pub fn bucket_stamps(&self, i: usize) -> (r: &Vec<PixelPositionedTexture>)
        requires
            i < self@.buckets.len(),
        ensures
            stamps_view(r@) == self@.buckets[i as int].1,
    {
        &self.texture_to_chunk_posses[i].stamps
    }

    /// How the host should sample chunk textures when it draws them.
    pub fn sampler(&self) -> (r: SamplingMode)
        ensures
            r == self@.sampler,
    {
        self.sampler
    }

    /// The configured per-chunk simulation shader paths, in dispatch order.
    pub fn simulation_shaders(&self) -> (r: &Vec<String>)
        ensures
            strings_view(r@) == self@.sim_shaders,
    {
        &self.simulation_shaders
    }

    /// The pixel buffer of the chunk in slot `slot`, as the CPU paint path
    /// sees it: the host uploads this to the slot's texture.
    pub fn chunk_buffer(&self, slot: usize) -> (r: &Vec<u8>)
        requires
            self.wf(),
            slot < self@.order.len(),
        ensures
            r@ == self@.data[self@.order[slot as int]],
            r@.len() == self@.buffer_len(),
    {
        proof {
            lemma_data_map_at(self.positions@, self.image_data@, slot as int);
        }
        &self.image_data[slot]
    }

    /// The slot of the chunk at `chunk_position`, or `None` when that chunk
    /// was never materialized.
    pub fn chunk_slot(&self, chunk_position: IVec2) -> (r: Option<usize>)
        requires
            self.wf(),
        ensures
            match r {
                Some(i) => i < self@.order.len() && self@.order[i as int] == coord_of(
                    chunk_position,
                ),
                None => !self@.data.contains_key(coord_of(chunk_position)),
            },
    {
        let r = self.find_chunk_slot(chunk_position);
        proof {
            lemma_data_map_contains(self.positions@, self.image_data@, coord_of(chunk_position));
            match r {
                Some(i) => {
                    assert(self@.order[i as int] == coord_of(self.positions@[i as int]));
                },
                None => {
                    if self@.data.contains_key(coord_of(chunk_position)) {
                        let i = choose|i: int|
                            0 <= i < self.positions@.len() && coord_of(self.positions@[i])
                                == coord_of(chunk_position);
                        assert(self.positions@[i] == chunk_position) by {
                            let a = self.positions@[i];
                            assert(a.x as int == chunk_position.x as int);
                            assert(a.y as int == chunk_position.y as int);
                        }
                    }
                },
            }
        }
        r
    }

    /// Slot of the chunk at `chunk_position`, when materialized.
    fn find_chunk_slot(&self, chunk_position: IVec2) -> (r: Option<usize>)
        ensures
            match r {
                Some(i) => i < self.positions@.len() && self.positions@[i as int]
                    == chunk_position,
                None => forall|i: int|
                    0 <= i < self.positions@.len() ==> self.positions@[i] != chunk_position,
            },
    {
        let mut i: usize = 0;
        while i < self.positions.len()
            invariant
                i <= self.positions@.len(),
                forall|j: int| 0 <= j < i ==> self.positions@[j] != chunk_position,
            decreases self.positions@.len() - i,
        {
            if self.positions[i] == chunk_position {
                return Some(i);
            }
            i += 1;
        }
        None
    }

    /// Materializes the chunk at `chunk_position` if it is absent,
    /// registering a template-filled buffer under the next slot; a no-op
    /// when the chunk already exists. Returns what the host must spawn for a
    /// newly materialized chunk, and `None` when nothing changed.
    pub fn add_chunk(&mut self, chunk_position: IVec2) -> (spawn: Option<ChunkSpawn>)
        requires
            old(self).wf(),
        ensures
            final(self).wf(),
            final(self)@ == ensure_chunk_m(old(self)@, coord_of(chunk_position)),
            spawn is Some <==> !old(self)@.data.contains_key(coord_of(chunk_position)),
            spawn matches Some(s) ==> {
                &&& s.chunk_position == chunk_position
                &&& s.slot == old(self)@.order.len()
                &&& s.world_x == chunk_position.x * old(self)@.chunk_w
                &&& s.world_y == chunk_position.y * old(self)@.chunk_h
                &&& s.parent == old(self)@.root
            },
    {
        proof {
            lemma_data_map_contains(self.positions@, self.image_data@, coord_of(chunk_position));
        }
        match self.find_chunk_slot(chunk_position) {
            Some(_) => {
                proof {
                    assert(self@.data.contains_key(coord_of(chunk_position)));
                }
                None
            },
            None => {
                proof {
                    assert forall|i: int|
                        0 <= i < self.positions@.len() implies coord_of(self.positions@[i])
                        != coord_of(chunk_position) by {
                        assert(self.positions@[i] != chunk_position);
                    }
                    assert(!self@.data.contains_key(coord_of(chunk_position)));
                    assert(i64::MIN <= (chunk_position.x as int) * (self.chunk_size.x as int)
                        <= i64::MAX) by (nonlinear_arith)
                        requires
                            -0x8000_0000 <= chunk_position.x as int <= 0x7fff_ffff,
                            0 <= self.chunk_size.x as int <= 0x7fff_ffff,
                    ;
                    assert(i64::MIN <= (chunk_position.y as int) * (self.chunk_size.y as int)
                        <= i64::MAX) by (nonlinear_arith)
                        requires
                            -0x8000_0000 <= chunk_position.y as int <= 0x7fff_ffff,
                            0 <= self.chunk_size.y as int <= 0x7fff_ffff,
                    ;
                }
                let ghost pre = *self;
                let buf = clone_bytes(&self.empty_texture);
                let slot = self.positions.len();
                let world_x = (chunk_position.x as i64) * (self.chunk_size.x as i64);
                let world_y = (chunk_position.y as i64) * (self.chunk_size.y as i64);
                self.positions.push(chunk_position);
                self.image_data.push(buf);
                proof {
                    lemma_data_map_push(pre.positions@, pre.image_data@, chunk_position, buf);
                    assert(coords_of(self.positions@) =~= coords_of(pre.positions@).push(
                        coord_of(chunk_position),
                    ));
                    assert(self@ =~~= ensure_chunk_m(pre@, coord_of(chunk_position)));
                    assert forall|i: int, j: int|
                        0 <= i < j < self.positions@.len() implies coord_of(self.positions@[i])
                        != coord_of(self.positions@[j]) by {
                        if j == self.positions@.len() - 1 {
                            assert(self.positions@[i] == pre.positions@[i]);
                            assert(pre.positions@[i] != chunk_position);
                        }
                    }
                    assert forall|i: int| 0 <= i < self.image_data@.len() implies (
                    #[trigger] self.image_data@[i])@.len() == self.chunk_size.x * self.chunk_size.y
                        * 4 by {
                        if i < pre.image_data@.len() {
                            assert(self.image_data@[i] == pre.image_data@[i]);
                        } else {
                            assert(self.image_data@[i] == buf);
                        }
                    }
                    assert forall|i: int| 0 <= i < self.texture_to_chunk_posses@.len() implies (
                    exists|j: int|
                        0 <= j < self.positions@.len() && self.positions@[j] == (
                        #[trigger] self.texture_to_chunk_posses@[i]).chunk_position) by {
                        let j = choose|j: int|
                            0 <= j < pre.positions@.len() && pre.positions@[j]
                                == self.texture_to_chunk_posses@[i].chunk_position;
                        assert(self.positions@[j]
                            == self.texture_to_chunk_posses@[i].chunk_position);
                    }
                }
                Some(
                    ChunkSpawn {
                        chunk_position,
                        slot,
                        world_x,
                        world_y,
                        parent: self.root_entity,
                    },
                )
            },
        }
    }
}

/// What one materialized chunk obliges the host to spawn: a visual for slot
/// `slot`, at the chunk's world origin, parented under the canvas anchor.
pub open spec fn spawn_matches(s: ChunkSpawn, c: (int, int), slot: int, m: CanvasModel) -> bool {
    &&& coord_of(s.chunk_position) == c
    &&& s.slot == slot
    &&& s.world_x == c.0 * m.chunk_w
    &&& s.world_y == c.1 * m.chunk_h
    &&& s.parent == m.root
}

/// The world positions of a batch of pixel writes, as integer pairs.
pub open spec fn points_view(ps: Seq<IVec2>) -> Seq<(int, int)> {
    Seq::new(ps.len(), |i: int| (ps[i].x as int, ps[i].y as int))
}

/// The colors of a batch of pixel writes, as byte sequences.
pub open spec fn colors_view(cs: Seq<[u8; 4]>) -> Seq<Seq<u8>> {
    Seq::new(cs.len(), |i: int| cs[i]@)
}

/// The world positions of the queued CPU writes.
pub open spec fn queue_points(q: Seq<((int, int), Seq<u8>)>) -> Seq<(int, int)> {
    Seq::new(q.len(), |i: int| q[i].0)
}

/// The colors of the queued CPU writes.
pub open spec fn queue_colors(q: Seq<((int, int), Seq<u8>)>) -> Seq<Seq<u8>> {
    Seq::new(q.len(), |i: int| q[i].1)
}

impl PixelMap {
    /// Writes one pixel: materializes the position's chunk if needed, then
    /// overwrites the 4 bytes at the position's offset.
    fn write_pixel(&mut self, position: IVec2, color: [u8; 4]) -> (spawn: Option<ChunkSpawn>)
        requires
            old(self).wf(),
        ensures
            final(self).wf(),
            final(self)@ == write_pixel_m(
                old(self)@,
                position.x as int,
                position.y as int,
                color@,
            ),
            spawn is Some <==> !old(self)@.data.contains_key(
                old(self)@.chunk_of(position.x as int, position.y as int),
            ),
            spawn matches Some(s) ==> spawn_matches(
                s,
                old(self)@.chunk_of(position.x as int, position.y as int),
                old(self)@.order.len() as int,
                old(self)@,
            ),
    {
        let ghost pre = *self;
        let ghost px = position.x as int;
        let ghost py = position.y as int;
        let ghost c = pre@.chunk_of(px, py);
        let outer = get_chunk_outer_i(position, self.chunk_size);
        let spawn = self.add_chunk(outer);
        let ghost mid = *self;
        let slot_opt = self.find_chunk_slot(outer);
        proof {
            lemma_data_map_contains(mid.positions@, mid.image_data@, c);
            assert(mid@.data.contains_key(c));
            let w = choose|i: int|
                0 <= i < mid.positions@.len() && coord_of(mid.positions@[i]) == c;
            assert(mid.positions@[w] == outer);
            assert(slot_opt is Some);
        }
        let slot = slot_opt.unwrap();
        proof {
            lemma_data_map_at(mid.positions@, mid.image_data@, slot as int);
            lemma_index_at_bounds(px, py, pre@.chunk_w, pre@.chunk_h);
        }
        let ghost oldbuf = mid.image_data@[slot as int];
        let ind = get_chunk_index_i(position, self.chunk_size) * 4;
        self.image_data[slot][ind] = color[0];
        self.image_data[slot][ind + 1] = color[1];
        self.image_data[slot][ind + 2] = color[2];
        self.image_data[slot][ind + 3] = color[3];
        proof {
            let newbuf = self.image_data@[slot as int];
            assert(newbuf@ =~= update4(oldbuf@, ind as int, color@));
            assert(self.image_data@ =~= mid.image_data@.update(slot as int, newbuf));
            lemma_data_map_update(mid.positions@, mid.image_data@, slot as int, newbuf);
            assert(mid@.data[c] == oldbuf@);
            assert(self@ =~~= write_pixel_m(pre@, px, py, color@));
            assert forall|i: int| 0 <= i < self.image_data@.len() implies (
            #[trigger] self.image_data@[i])@.len() == self.chunk_size.x * self.chunk_size.y
                * 4 by {
                if i != slot as int {
                    assert(self.image_data@[i] == mid.image_data@[i]);
                }
            }
        }
        spawn
    }

    /// Writes a batch of pixels, position by position in order: each
    /// position's chunk is materialized if absent and its 4 RGBA bytes are
    /// overwritten, later writes winning over earlier ones. When the two
    /// vectors differ in length nothing is changed and `LengthMismatch` is
    /// returned; otherwise the returned list tells the host, in
    /// materialization order, which chunk visuals to spawn.
    pub fn set_pixels_cpu(&mut self, pixels: (Vec<IVec2>, Vec<[u8; 4]>)) -> (r: Result<
        Vec<ChunkSpawn>,
        PixelMapError,
    >)
        requires
            old(self).wf(),
        ensures
            final(self).wf(),
            pixels.0@.len() != pixels.1@.len() ==> r == Result::<
                Vec<ChunkSpawn>,
                PixelMapError,
            >::Err(PixelMapError::LengthMismatch) && *final(self) == *old(self),
            pixels.0@.len() == pixels.1@.len() ==> {
                &&& r is Ok
                &&& final(self)@ == write_all_m(
                    old(self)@,
                    points_view(pixels.0@),
                    colors_view(pixels.1@),
                )
                &&& (r matches Ok(spawns) ==> {
                    &&& spawns@.len() == final(self)@.order.len() - old(self)@.order.len()
                    &&& (forall|k: int|
                        0 <= k < spawns@.len() ==> spawn_matches(
                            #[trigger] spawns@[k],
                            final(self)@.order[old(self)@.order.len() + k],
                            old(self)@.order.len() + k,
                            old(self)@,
                        ))
                })
            },
    {
        let (positions, colors) = pixels;
        if positions.len() != colors.len() {
            return Err(PixelMapError::LengthMismatch);
        }
        let ghost m0 = self@;
        let ghost pts = points_view(positions@);
        let ghost cols = colors_view(colors@);
        let mut spawns: Vec<ChunkSpawn> = Vec::new();
        proof {
            assert(pts.skip(0) =~= pts);
            assert(cols.skip(0) =~= cols);
        }
        let mut i: usize = 0;
        while i < positions.len()
            invariant
                self.wf(),
                i <= positions@.len(),
                positions@.len() == colors@.len(),
                pts == points_view(positions@),
                cols == colors_view(colors@),
                write_all_m(m0, pts, cols) == write_all_m(self@, pts.skip(i as int), cols.skip(i as int)),
                self@.chunk_w == m0.chunk_w,
                self@.chunk_h == m0.chunk_h,
                self@.root == m0.root,
                m0.order.len() <= self@.order.len(),
                spawns@.len() == self@.order.len() - m0.order.len(),
                forall|k: int|
                    0 <= k < spawns@.len() ==> spawn_matches(
                        #[trigger] spawns@[k],
                        self@.order[m0.order.len() + k],
                        m0.order.len() + k,
                        m0,
                    ),
            decreases positions@.len() - i,
        {
            let ghost mid = self@;
            let spawn = self.write_pixel(positions[i], colors[i]);
            match spawn {
                Some(s) => spawns.push(s),
                None => {},
            }
            proof {
                assert(pts.skip(i as int)[0] == pts[i as int]);
                assert(cols.skip(i as int)[0] == cols[i as int]);
                assert(pts.skip(i as int).skip(1) =~= pts.skip(i + 1 as int));
                assert(cols.skip(i as int).skip(1) =~= cols.skip(i + 1 as int));
                assert(write_all_m(mid, pts.skip(i as int), cols.skip(i as int)) == write_all_m(
                    self@,
                    pts.skip(i + 1 as int),
                    cols.skip(i + 1 as int),
                ));
            }
            i += 1;
        }
        proof {
            assert(pts.skip(positions@.len() as int) =~= Seq::<(int, int)>::empty());
            assert(cols.skip(colors@.len() as int) =~= Seq::<Seq<u8>>::empty());
        }
        Ok(spawns)
    }

    /// Reads a batch of pixels: each position yields the 4 RGBA bytes its
    /// chunk stores at the position's offset, or the canvas's default fill
    /// color when the chunk was never materialized.
    pub fn get_pixels_cpu(&self, world_positions: &Vec<IVec2>) -> (r: Vec<[u8; 4]>)
        requires
            self.wf(),
        ensures
            r@.len() == world_positions@.len(),
            forall|i: int|
                0 <= i < r@.len() ==> (#[trigger] r@[i])@ == read_pixel_m(
                    self@,
                    world_positions@[i].x as int,
                    world_positions@[i].y as int,
                ),
    {
        let mut r: Vec<[u8; 4]> = Vec::new();
        let mut i: usize = 0;
        while i < world_positions.len()
            invariant
                self.wf(),
                i <= world_positions@.len(),
                r@.len() == i,
                forall|j: int|
                    0 <= j < i ==> (#[trigger] r@[j])@ == read_pixel_m(
                        self@,
                        world_positions@[j].x as int,
                        world_positions@[j].y as int,
                    ),
            decreases world_positions@.len() - i,
        {
            let p = world_positions[i];
            let ghost px = p.x as int;
            let ghost py = p.y as int;
            let ghost c = self@.chunk_of(px, py);
            let outer = get_chunk_outer_i(p, self.chunk_size);
            proof {
                lemma_data_map_contains(self.positions@, self.image_data@, c);
            }
            match self.find_chunk_slot(outer) {
                Some(slot) => {
                    proof {
                        lemma_data_map_at(self.positions@, self.image_data@, slot as int);
                        lemma_index_at_bounds(px, py, self@.chunk_w, self@.chunk_h);
                    }
                    let ind = get_chunk_index_i(p, self.chunk_size) * 4;
                    let color: [u8; 4] = [
                        self.image_data[slot][ind],
                        self.image_data[slot][ind + 1],
                        self.image_data[slot][ind + 2],
                        self.image_data[slot][ind + 3],
                    ];
                    proof {
                        assert(self@.data.contains_key(c));
                        assert(color@ =~= self@.data[c].subrange(
                            self@.byte_offset(px, py),
                            self@.byte_offset(px, py) + 4,
                        ));
                    }
                    r.push(color);
                },
                None => {
                    proof {
                        assert(!self@.data.contains_key(c));
                    }
                    r.push(self.default_chunk_color);
                },
            }
            i += 1;
        }
        r
    }

    /// Enqueues stamps for the GPU compositing path. Nothing is resolved
    /// yet: the stamps wait in the queue until the per-frame overlap pass
    /// distributes them. Every stamp must keep both corners strictly inside
    /// the `i32` range so its padded chunk footprint stays representable;
    /// the host checks this before enqueueing.
    pub fn set_pixels_gpu(&mut self, textures: Vec<PixelPositionedTexture>)
        requires
            old(self).wf(),
            forall|i: int|
                0 <= i < textures@.len() ==> stamp_in_range((#[trigger] textures@[i])@),
        ensures
            final(self).wf(),
            final(self)@ == (CanvasModel {
                queue: old(self)@.queue + stamps_view(textures@),
                ..old(self)@
            }),
    {
        let ghost pre = *self;
        let ghost added = textures@;
        let mut textures = textures;
        self.texture_queue.append(&mut textures);
        proof {
            assert(stamps_view(self.texture_queue@) =~= pre@.queue + stamps_view(added));
            assert(self@ =~~= (CanvasModel { queue: pre@.queue + stamps_view(added), ..pre@ }));
        }
    }

    /// Enqueues a batch of pixels for the deferred CPU write path, to be
    /// applied by the next `add_pixel_map_chunks` pass. When the two vectors
    /// differ in length nothing is queued and `LengthMismatch` is returned.
    pub fn set_pixels(&mut self, pixel_positions: Vec<IVec2>, pixel_colors: Vec<[u8; 4]>) -> (r:
        Result<(), PixelMapError>)
        requires
            old(self).wf(),
        ensures
            final(self).wf(),
            pixel_positions@.len() != pixel_colors@.len() ==> r == Result::<
                (),
                PixelMapError,
            >::Err(PixelMapError::LengthMismatch) && *final(self) == *old(self),
            pixel_positions@.len() == pixel_colors@.len() ==> r == Result::<
                (),
                PixelMapError,
            >::Ok(()) && final(self)@ == (CanvasModel {
                pixel_queue: old(self)@.pixel_queue + pixel_queue_view(
                    pixel_positions@,
                    pixel_colors@,
                ),
                ..old(self)@
            }),
    {
        if pixel_positions.len() != pixel_colors.len() {
            return Err(PixelMapError::LengthMismatch);
        }
        let ghost pre = *self;
        let ghost added_ps = pixel_positions@;
        let ghost added_cs = pixel_colors@;
        let mut pixel_positions = pixel_positions;
        let mut pixel_colors = pixel_colors;
        self.set_pixel_queue_positions.append(&mut pixel_positions);
        self.set_pixel_queue_colors.append(&mut pixel_colors);
        proof {
            assert(pixel_queue_view(
                self.set_pixel_queue_positions@,
                self.set_pixel_queue_colors@,
            ) =~= pre@.pixel_queue + pixel_queue_view(added_ps, added_cs));
            assert(self@ =~~= (CanvasModel {
                pixel_queue: pre@.pixel_queue + pixel_queue_view(added_ps, added_cs),
                ..pre@
            }));
        }
        Ok(())
    }
}

/// Applies every queued CPU pixel write in enqueue order — materializing
/// chunks as needed — and clears the queue. Returns, in materialization
/// order, the chunk visuals the host must spawn.
pub fn add_pixel_map_chunks(pixel_map: &mut PixelMap) -> (spawns: Vec<ChunkSpawn>)
    requires
        old(pixel_map).wf(),
    ensures
        final(pixel_map).wf(),
        final(pixel_map)@ == (CanvasModel {
            pixel_queue: Seq::<((int, int), Seq<u8>)>::empty(),
            ..write_all_m(
                old(pixel_map)@,
                queue_points(old(pixel_map)@.pixel_queue),
                queue_colors(old(pixel_map)@.pixel_queue),
            )
        }),
        spawns@.len() == final(pixel_map)@.order.len() - old(pixel_map)@.order.len(),
        forall|k: int|
            0 <= k < spawns@.len() ==> spawn_matches(
                #[trigger] spawns@[k],
                final(pixel_map)@.order[old(pixel_map)@.order.len() + k],
                old(pixel_map)@.order.len() + k,
                old(pixel_map)@,
            ),
{
    let ghost m0 = pixel_map@;
    let mut qp: Vec<IVec2> = Vec::new();
    let mut qc: Vec<[u8; 4]> = Vec::new();
    let n = pixel_map.set_pixel_queue_positions.len();
    let mut i: usize = 0;
    while i < n
        invariant
            *pixel_map == *old(pixel_map),
            n == pixel_map.set_pixel_queue_positions@.len(),
            n == pixel_map.set_pixel_queue_colors@.len(),
            i <= n,
            qp@ == pixel_map.set_pixel_queue_positions@.subrange(0, i as int),
            qc@ == pixel_map.set_pixel_queue_colors@.subrange(0, i as int),
        decreases n - i,
    {
        qp.push(pixel_map.set_pixel_queue_positions[i]);
        qc.push(pixel_map.set_pixel_queue_colors[i]);
        proof {
            assert(qp@ =~= pixel_map.set_pixel_queue_positions@.subrange(0, i + 1 as int));
            assert(qc@ =~= pixel_map.set_pixel_queue_colors@.subrange(0, i + 1 as int));
        }
        i += 1;
    }
    proof {
        assert(qp@ =~= pixel_map.set_pixel_queue_positions@);
        assert(qc@ =~= pixel_map.set_pixel_queue_colors@);
        assert(points_view(qp@) =~= queue_points(m0.pixel_queue));
        assert(colors_view(qc@) =~= queue_colors(m0.pixel_queue));
    }
    pixel_map.set_pixel_queue_positions.clear();
    pixel_map.set_pixel_queue_colors.clear();
    let ghost cleared = pixel_map@;
    proof {
        assert(cleared =~~= (CanvasModel {
            pixel_queue: Seq::<((int, int), Seq<u8>)>::empty(),
            ..m0
        }));
    }
    let r = pixel_map.set_pixels_cpu((qp, qc));
    let spawns = match r {
        Ok(s) => s,
        Err(_) => Vec::new(),
    };
    proof {
        crate::model::lemma_write_all_preserves_rest(
            cleared,
            points_view(qp@),
            colors_view(qc@),
        );
        crate::model::lemma_write_all_preserves_rest(
            m0,
            queue_points(m0.pixel_queue),
            queue_colors(m0.pixel_queue),
        );
        lemma_write_all_same_store(cleared, m0, points_view(qp@), colors_view(qc@));
        assert(pixel_map@ =~~= (CanvasModel {
            pixel_queue: Seq::<((int, int), Seq<u8>)>::empty(),
            ..write_all_m(m0, queue_points(m0.pixel_queue), queue_colors(m0.pixel_queue))
        }));
    }
    spawns
}

/// Two canvases differing only outside the chunk store come to the same
/// store — and the same slot order — after the same batch of writes.
proof fn lemma_write_all_same_store(
    a: CanvasModel,
    b: CanvasModel,
    ps: Seq<(int, int)>,
    cs: Seq<Seq<u8>>,
)
    requires
        a.chunk_w == b.chunk_w,
        a.chunk_h == b.chunk_h,
        a.template == b.template,
        a.order == b.order,
        a.data == b.data,
    ensures
        write_all_m(a, ps, cs).order == write_all_m(b, ps, cs).order,
        write_all_m(a, ps, cs).data == write_all_m(b, ps, cs).data,
    decreases ps.len(),
{
    if ps.len() != 0 {
        let a1 = write_pixel_m(a, ps[0].0, ps[0].1, cs[0]);
        let b1 = write_pixel_m(b, ps[0].0, ps[0].1, cs[0]);
        assert(a1.chunk_w == b1.chunk_w && a1.chunk_h == b1.chunk_h && a1.template == b1.template
            && a1.order == b1.order && a1.data == b1.data);
        lemma_write_all_same_store(a1, b1, ps.skip(1), cs.skip(1));
    }
}

/// First bucket of the table holding `key`, if any.
fn find_bucket(buckets: &Vec<ChunkBucket>, key: IVec2) -> (r: Option<usize>)
    ensures
        match r {
            Some(i) => i < buckets@.len() && buckets@[i as int].chunk_position == key
                && (forall|j: int| 0 <= j < i ==> buckets@[j].chunk_position != key),
            None => forall|j: int|
                0 <= j < buckets@.len() ==> buckets@[j].chunk_position != key,
        },
{
    let mut i: usize = 0;
    while i < buckets.len()
        invariant
            i <= buckets@.len(),
            forall|j: int| 0 <= j < i ==> buckets@[j].chunk_position != key,
        decreases buckets@.len() - i,
    {
        if buckets[i].chunk_position == key {
            return Some(i);
        }
        i += 1;
    }
    None
}

/// Resolves the queued stamps into this frame's overlap table and clears
/// the queue.
///
/// Every stamp is appended, in enqueue order, to the bucket of every chunk
/// coordinate in its padded footprint: the rectangle of chunks from one
/// below the chunk of its corner to one above the chunk of its opposite
/// corner, enumerated column by column. Buckets appear in order of first
/// touch. Afterwards every bucket's chunk is materialized; the returned
/// list tells the host, in materialization order, which chunk visuals to
/// spawn.
pub fn prepare_chunks(pixel_map: &mut PixelMap) -> (spawns: Vec<ChunkSpawn>)
    requires
        old(pixel_map).wf(),
    ensures
        final(pixel_map).wf(),
        final(pixel_map)@ == (CanvasModel {
            queue: Seq::<StampModel>::empty(),
            buckets: distribute_stamps(
                Seq::<((int, int), Seq<StampModel>)>::empty(),
                old(pixel_map)@.queue,
                old(pixel_map)@.chunk_w,
                old(pixel_map)@.chunk_h,
            ),
            ..ensure_all_m(
                old(pixel_map)@,
                bucket_keys(
                    distribute_stamps(
                        Seq::<((int, int), Seq<StampModel>)>::empty(),
                        old(pixel_map)@.queue,
                        old(pixel_map)@.chunk_w,
                        old(pixel_map)@.chunk_h,
                    ),
                ),
            )
        }),
        spawns@.len() == final(pixel_map)@.order.len() - old(pixel_map)@.order.len(),
        forall|k: int|
            0 <= k < spawns@.len() ==> spawn_matches(
                #[trigger] spawns@[k],
                final(pixel_map)@.order[old(pixel_map)@.order.len() + k],
                old(pixel_map)@.order.len() + k,
                old(pixel_map)@,
            ),
{
    let ghost m0 = pixel_map@;
    let ghost all = m0.queue;
    let ghost cw = m0.chunk_w;
    let ghost ch = m0.chunk_h;
    let mut buckets: Vec<ChunkBucket> = Vec::new();
    proof {
        assert(buckets_view(buckets@) =~= Seq::<((int, int), Seq<StampModel>)>::empty());
        assert(all.skip(0) =~= all);
    }
    let qlen = pixel_map.texture_queue.len();
    let mut t: usize = 0;
    while t < qlen
        invariant
            *pixel_map == *old(pixel_map),
            old(pixel_map).wf(),
            m0 == pixel_map@,
            all == m0.queue,
            cw == m0.chunk_w,
            ch == m0.chunk_h,
            qlen == pixel_map.texture_queue@.len(),
            t <= qlen,
            distribute_stamps(Seq::<((int, int), Seq<StampModel>)>::empty(), all, cw, ch)
                == distribute_stamps(buckets_view(buckets@), all.skip(t as int), cw, ch),
            forall|i: int, j: int|
                0 <= i < j < buckets@.len() ==> coord_of(
                    (#[trigger] buckets@[i]).chunk_position,
                ) != coord_of((#[trigger] buckets@[j]).chunk_position),
            forall|i: int, j: int|
                0 <= i < buckets@.len() && 0 <= j < buckets@[i].stamps@.len()
                    ==> stamp_in_range((#[trigger] buckets@[i].stamps@[j])@),
        decreases qlen - t,
    {
        let tex = pixel_map.texture_queue[t];
        let ghost s = tex@;
        proof {
            assert(stamp_in_range(s));
            assert(all.skip(t as int)[0] == all[t as int]);
            assert(all[t as int] == s);
        }
        let end_x: i32 = ((tex.position.x as i64) + (tex.size.x as i64)) as i32;
        let end_y: i32 = ((tex.position.y as i64) + (tex.size.y as i64)) as i32;
        let c_start = get_chunk_outer_i(tex.position, pixel_map.chunk_size);
        let c_end = get_chunk_outer_i(IVec2 { x: end_x, y: end_y }, pixel_map.chunk_size);
        proof {
            lemma_div_between(tex.position.x as int, cw);
            lemma_div_between(tex.position.y as int, ch);
            lemma_div_between(end_x as int, cw);
            lemma_div_between(end_y as int, ch);
            lemma_footprint_nonempty(s, cw, ch);
        }
        let sx = c_start.x - 1;
        let sy = c_start.y - 1;
        let ex2 = c_end.x + 1;
        let ey2 = c_end.y + 1;
        let width: u64 = ((ex2 as i64) - (sx as i64) + 1) as u64;
        let height: u64 = ((ey2 as i64) - (sy as i64) + 1) as u64;
        let ghost coords = footprint_coords(s, cw, ch);
        let ghost h = (ey2 - sy + 1) as int;
        proof {
            assert(coords == rect_coords(sx as int, sy as int, ex2 as int, ey2 as int));
            assert(coords.len() == width * height);
        }
        let ghost bs_enter = buckets_view(buckets@);
        proof {
            assert(coords.skip(0) =~= coords);
        }
        let mut dx: u64 = 0;
        while dx < width
            invariant
                dx <= width,
                width == ex2 - sx + 1,
                height == ey2 - sy + 1,
                h == height,
                i32::MIN <= sx,
                i32::MIN <= sy,
                ex2 <= i32::MAX,
                ey2 <= i32::MAX,
                coords == rect_coords(sx as int, sy as int, ex2 as int, ey2 as int),
                coords.len() == width * height,
                stamp_in_range(s),
                s == tex@,
                distribute_coords(bs_enter, s, coords) == distribute_coords(
                    buckets_view(buckets@),
                    s,
                    coords.skip(dx * h),
                ),
                forall|i: int, j: int|
                    0 <= i < j < buckets@.len() ==> coord_of(
                        (#[trigger] buckets@[i]).chunk_position,
                    ) != coord_of((#[trigger] buckets@[j]).chunk_position),
                forall|i: int, j: int|
                    0 <= i < buckets@.len() && 0 <= j < buckets@[i].stamps@.len()
                        ==> stamp_in_range((#[trigger] buckets@[i].stamps@[j])@),
            decreases width - dx,
        {
            let x: i32 = ((sx as i64) + (dx as i64)) as i32;
            let mut dy: u64 = 0;
            while dy < height
                invariant
                    dy <= height,
                    dx < width,
                    width == ex2 - sx + 1,
                    height == ey2 - sy + 1,
                    h == height,
                    i32::MIN <= sx,
                    i32::MIN <= sy,
                    ex2 <= i32::MAX,
                    ey2 <= i32::MAX,
                    x == sx + dx,
                    coords == rect_coords(sx as int, sy as int, ex2 as int, ey2 as int),
                    coords.len() == width * height,
                    stamp_in_range(s),
                    s == tex@,
                    distribute_coords(bs_enter, s, coords) == distribute_coords(
                        buckets_view(buckets@),
                        s,
                        coords.skip(dx * h + dy),
                    ),
                    forall|i: int, j: int|
                        0 <= i < j < buckets@.len() ==> coord_of(
                            (#[trigger] buckets@[i]).chunk_position,
                        ) != coord_of((#[trigger] buckets@[j]).chunk_position),
                    forall|i: int, j: int|
                        0 <= i < buckets@.len() && 0 <= j < buckets@[i].stamps@.len()
                            ==> stamp_in_range((#[trigger] buckets@[i].stamps@[j])@),
                decreases height - dy,
            {
                let y: i32 = ((sy as i64) + (dy as i64)) as i32;
                let key = IVec2 { x, y };
                let ghost c = coord_of(key);
                let ghost k = dx * h + dy;
                let ghost bv = buckets_view(buckets@);
                proof {
                    vstd::arithmetic::div_mod::lemma_fundamental_div_mod_converse_div(
                        k,
                        h,
                        dx as int,
                        dy as int,
                    );
                    vstd::arithmetic::div_mod::lemma_fundamental_div_mod_converse_mod(
                        k,
                        h,
                        dx as int,
                        dy as int,
                    );
                    assert(0 <= k < coords.len()) by (nonlinear_arith)
                        requires
                            k == dx * h + dy,
                            0 <= dx < width,
                            0 <= dy < height,
                            h == height,
                            0 < height,
                            coords.len() == width * height,
                    ;
                    assert(coords[k] == c);
                    assert(coords.skip(k)[0] == coords[k]);
                    assert(coords.skip(k).skip(1) =~= coords.skip(k + 1));
                }
                let ghost pre_buckets = buckets@;
                match find_bucket(&buckets, key) {
                    Some(bi) => {
                        let ghost oldstamps = buckets@[bi as int].stamps@;
                        buckets[bi].stamps.push(tex);
                        proof {
                            assert(buckets@.len() == pre_buckets.len());
                            assert(buckets@[bi as int].chunk_position == pre_buckets[bi as int].chunk_position);
                            assert(buckets@[bi as int].stamps@ == oldstamps.push(tex));
                            assert(forall|j: int|
                                0 <= j < pre_buckets.len() && j != bi ==> buckets@[j]
                                    == pre_buckets[j]);
                            assert(buckets_has_key(bv, c)) by {
                                assert(bv[bi as int].0 == c);
                            }
                            lemma_bucket_key_index(bv, c);
                            let idx = bucket_key_index(bv, c);
                            assert forall|j: int| 0 <= j < bi implies bv[j].0 != c by {
                                let b = pre_buckets[j].chunk_position;
                                assert(b != key);
                                assert(bv[j].0 == coord_of(b));
                                assert(coord_of(b) == c ==> b.x == key.x && b.y == key.y);
                            }
                            assert(idx == bi as int) by {
                                if idx < bi as int {
                                    assert(bv[idx].0 == c);
                                } else if idx > bi as int {
                                    assert(bv[bi as int].0 != c);
                                }
                            }
                            assert(stamps_view(buckets@[bi as int].stamps@) =~= stamps_view(
                                oldstamps,
                            ).push(s));
                            assert(buckets_view(buckets@) =~= bucket_add(bv, c, s));
                            assert forall|i2: int, j2: int|
                                0 <= i2 < buckets@.len() && 0 <= j2
                                    < buckets@[i2].stamps@.len() implies stamp_in_range(
                                (#[trigger] buckets@[i2].stamps@[j2])@,
                            ) by {
                                if i2 == bi as int {
                                    if j2 < oldstamps.len() {
                                        assert(buckets@[i2].stamps@[j2] == pre_buckets[i2].stamps@[j2]);
                                    } else {
                                        assert(buckets@[i2].stamps@[j2] == tex);
                                    }
                                } else {
                                    assert(buckets@[i2] == pre_buckets[i2]);
                                }
                            }
                        }
                    },
                    None => {
                        let mut one: Vec<PixelPositionedTexture> = Vec::new();
                        one.push(tex);
                        buckets.push(ChunkBucket { chunk_position: key, stamps: one });
                        proof {
                            assert(!buckets_has_key(bv, c)) by {
                                if buckets_has_key(bv, c) {
                                    let i = choose|i: int| 0 <= i < bv.len() && bv[i].0 == c;
                                    let b = pre_buckets[i].chunk_position;
                                    assert(bv[i].0 == coord_of(b));
                                    assert(b.x == key.x && b.y == key.y);
                                    assert(b != key);
                                }
                            }
                            assert(buckets@[buckets@.len() - 1].stamps@ =~= seq![tex]);
                            assert(stamps_view(buckets@[buckets@.len() - 1].stamps@) =~= seq![s]);
                            assert(buckets_view(buckets@) =~= bucket_add(bv, c, s));
                            assert forall|i2: int, j2: int|
                                0 <= i2 < buckets@.len() && 0 <= j2
                                    < buckets@[i2].stamps@.len() implies stamp_in_range(
                                (#[trigger] buckets@[i2].stamps@[j2])@,
                            ) by {
                                if i2 < pre_buckets.len() {
                                    assert(buckets@[i2] == pre_buckets[i2]);
                                } else {
                                    assert(buckets@[i2].stamps@[j2] == tex);
                                }
                            }
                        }
                    },
                }
                dy += 1;
            }
            proof {
                assert(dx * h + h == (dx + 1) * h) by (nonlinear_arith);
            }
            dx += 1;
        }
        proof {
            assert(coords.skip(width * height) =~= Seq::<(int, int)>::empty());
            assert(all.skip(t as int).skip(1) =~= all.skip(t + 1 as int));
        }
        t += 1;
    }
    proof {
        assert(all.skip(qlen as int) =~= Seq::<StampModel>::empty());
    }
    let ghost dist = distribute_stamps(
        Seq::<((int, int), Seq<StampModel>)>::empty(),
        all,
        cw,
        ch,
    );
    proof {
        assert(dist == buckets_view(buckets@));
    }
    let mut spawns: Vec<ChunkSpawn> = Vec::new();
    let ghost keys = bucket_keys(dist);
    proof {
        assert(keys.skip(0) =~= keys);
    }
    let mut bi: usize = 0;
    while bi < buckets.len()
        invariant
            bi <= buckets@.len(),
            pixel_map.wf(),
            dist == buckets_view(buckets@),
            keys == bucket_keys(dist),
            ensure_all_m(m0, keys) == ensure_all_m(pixel_map@, keys.skip(bi as int)),
            pixel_map@.chunk_w == m0.chunk_w,
            pixel_map@.chunk_h == m0.chunk_h,
            pixel_map@.root == m0.root,
            m0.order.len() <= pixel_map@.order.len(),
            spawns@.len() == pixel_map@.order.len() - m0.order.len(),
            forall|k: int|
                0 <= k < spawns@.len() ==> spawn_matches(
                    #[trigger] spawns@[k],
                    pixel_map@.order[m0.order.len() + k],
                    m0.order.len() + k,
                    m0,
                ),
            forall|j: int|
                0 <= j < bi ==> pixel_map@.data.contains_key(#[trigger] keys[j]),
        decreases buckets@.len() - bi,
    {
        let ghost mid = pixel_map@;
        let key = buckets[bi].chunk_position;
        proof {
            assert(keys[bi as int] == coord_of(key));
            assert(keys.skip(bi as int)[0] == keys[bi as int]);
            assert(keys.skip(bi as int).skip(1) =~= keys.skip(bi + 1 as int));
        }
        let spawn = pixel_map.add_chunk(key);
        match spawn {
            Some(sp) => spawns.push(sp),
            None => {},
        }
        proof {
            assert forall|j: int| 0 <= j < bi + 1 implies pixel_map@.data.contains_key(
                #[trigger] keys[j],
            ) by {
                if j < bi {
                    assert(mid.data.contains_key(keys[j]));
                }
            }
        }
        bi += 1;
    }
    proof {
        assert(keys.skip(buckets@.len() as int) =~= Seq::<(int, int)>::empty());
        assert(pixel_map@ == ensure_all_m(m0, keys));
    }
    let ghost ensured = pixel_map@;
    pixel_map.texture_to_chunk_posses = buckets;
    pixel_map.texture_queue.clear();
    proof {
        assert(stamps_view(pixel_map.texture_queue@) =~= Seq::<StampModel>::empty());
        assert(pixel_map@ =~~= (CanvasModel {
            queue: Seq::<StampModel>::empty(),
            buckets: dist,
            ..ensured
        }));
        crate::model::lemma_ensure_all_preserves_rest(m0, keys);
        assert forall|i: int|
            0 <= i < pixel_map.texture_to_chunk_posses@.len() implies (exists|j: int|
            0 <= j < pixel_map.positions@.len() && pixel_map.positions@[j] == (
            #[trigger] pixel_map.texture_to_chunk_posses@[i]).chunk_position) by {
            assert(ensured.data.contains_key(keys[i]));
            lemma_data_map_contains(
                pixel_map.positions@,
                pixel_map.image_data@,
                keys[i],
            );
            let j = choose|j: int|
                0 <= j < pixel_map.positions@.len() && coord_of(pixel_map.positions@[j])
                    == keys[i];
            assert(pixel_map.positions@[j]
                == pixel_map.texture_to_chunk_posses@[i].chunk_position) by {
                let a = pixel_map.positions@[j];
                let b = pixel_map.texture_to_chunk_posses@[i].chunk_position;
                assert(coord_of(b) == keys[i]);
                assert(a.x as int == b.x as int && a.y as int == b.y as int);
            }
        }
    }
    spawns
}

/// The template buffer for a chunk with no supplied template: every texel
/// filled with the default color.
fn solid_template(chunk_size: UVec2, color: [u8; 4]) -> (r: Vec<u8>)
    requires
        chunk_size_in_range(chunk_size),
        chunk_size.x * chunk_size.y * 4 <= usize::MAX,
    ensures
        r@ == solid_fill(chunk_size.x * chunk_size.y, color@),
{
    let total_pixels: usize = (chunk_size.x as usize) * (chunk_size.y as usize);
    proof {
        assert(total_pixels == chunk_size.x * chunk_size.y);
    }
    let mut r: Vec<u8> = Vec::new();
    let mut k: usize = 0;
    while k < total_pixels
        invariant
            k <= total_pixels,
            r@ == solid_fill(k as int, color@),
        decreases total_pixels - k,
    {
        r.push(color[0]);
        r.push(color[1]);
        r.push(color[2]);
        r.push(color[3]);
        proof {
            assert forall|i: int| 0 <= i < 4 * (k + 1) implies r@[i] == color@[i % 4] by {
                if i < 4 * k {
                    assert(r@[i] == solid_fill(k as int, color@)[i]);
                } else {
                    let rem = i - 4 * k;
                    assert(0 <= rem < 4);
                    vstd::arithmetic::div_mod::lemma_mod_multiples_vanish(k as int, rem, 4);
                    vstd::arithmetic::div_mod::lemma_mod_bound(rem, 4);
                    assert(rem % 4 == rem) by {
                        vstd::arithmetic::div_mod::lemma_small_mod(rem as nat, 4nat);
                    }
                    assert(i % 4 == rem);
                }
            }
            assert(r@ =~= solid_fill(k + 1 as int, color@));
        }
        k += 1;
    }
    r
}

} // verus!
