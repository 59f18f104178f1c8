use vstd::prelude::*;
use crate::chunk_position::{index_at, lemma_index_at_bounds, outer_coord};
use vstd::arithmetic::div_mod::{
    lemma_div_is_ordered, lemma_fundamental_div_mod, lemma_fundamental_div_mod_converse_div,
    lemma_fundamental_div_mod_converse_mod, lemma_mod_bound,
};
use vstd::arithmetic::mul::lemma_mul_inequality;

verus! {

/// Mathematical view of one queued stamp: a positioned source image waiting
/// to be composited into the canvas by the GPU path.
#[verifier::ext_equal]
pub ghost struct StampModel {
    /// World position of the stamp's corner, `(x, y)`.
    pub pos: (int, int),
    /// Extent of the stamp in pixels, `(width, height)`.
    pub size: (int, int),
    /// Identifier of the source texture, as the host registered it.
    pub image: int,
}

/// A stamp whose corner and opposite corner both lie strictly inside the
/// `i32` range, so that chunk-footprint arithmetic (including one chunk of
/// padding on every side) stays exact in machine integers.
pub open spec fn stamp_in_range(s: StampModel) -> bool {
    &&& i32::MIN < s.pos.0
    &&& i32::MIN < s.pos.1
    &&& 0 <= s.size.0
    &&& 0 <= s.size.1
    &&& s.pos.0 + s.size.0 < i32::MAX
    &&& s.pos.1 + s.size.1 < i32::MAX
    &&& 0 <= s.image <= u64::MAX
}

/// Mathematical view of the whole canvas: chunk geometry, the sparse chunk
/// store (slot order plus per-chunk pixel buffers), and the queues feeding
/// the CPU and GPU paint paths.
#[verifier::ext_equal]
pub ghost struct CanvasModel {
    /// Chunk width in pixels.
    pub chunk_w: int,
    /// Chunk height in pixels.
    pub chunk_h: int,
    /// Entity under which the host parents new chunk visuals.
    pub root: int,
    /// RGBA color read for pixels of absent chunks; 4 bytes.
    pub default_color: Seq<u8>,
    /// Pixel buffer a newly materialized chunk starts from.
    pub template: Seq<u8>,
    /// Chunk coordinates in slot order (slot = index here).
    pub order: Seq<(int, int)>,
    /// Pixel buffer of each materialized chunk, keyed by chunk coordinate.
    pub data: Map<(int, int), Seq<u8>>,
    /// Stamps enqueued for the GPU path, in enqueue order.
    pub queue: Seq<StampModel>,
    /// The current frame's overlap table: per chunk coordinate, the stamps
    /// overlapping that chunk (with padding), in enqueue order.
    pub buckets: Seq<((int, int), Seq<StampModel>)>,
    /// Pixels queued for the deferred CPU write path.
    pub pixel_queue: Seq<((int, int), Seq<u8>)>,
    /// Paths of the per-chunk simulation shaders, in dispatch order.
    pub sim_shaders: Seq<Seq<char>>,
    /// How the host samples chunk textures when drawing them.
    pub sampler: crate::SamplingMode,
}

impl CanvasModel {
    /// Number of bytes in one chunk's pixel buffer.
    pub open spec fn buffer_len(self) -> int {
        self.chunk_w * self.chunk_h * 4
    }

    /// Chunk coordinate holding the world position `(px, py)`.
    pub open spec fn chunk_of(self, px: int, py: int) -> (int, int) {
        (outer_coord(px, self.chunk_w), outer_coord(py, self.chunk_h))
    }

    /// Byte offset of the world position `(px, py)` inside its chunk's
    /// buffer.
    pub open spec fn byte_offset(self, px: int, py: int) -> int {
        4 * index_at(px, py, self.chunk_w, self.chunk_h)
    }

    /// Well-formedness of the model: positive chunk geometry with exact
    /// signed arithmetic, buffers of the right length, an injective slot order matching the
    /// store, buckets over materialized chunks only, and queued stamps whose
    /// footprints stay representable.
    pub open spec fn wf(self) -> bool {
        &&& 0 < self.chunk_w <= i32::MAX
        &&& 0 < self.chunk_h <= i32::MAX
        &&& self.buffer_len() <= usize::MAX
        &&& self.default_color.len() == 4
        &&& self.template.len() == self.buffer_len()
        &&& (forall|i: int, j: int|
            0 <= i < j < self.order.len() ==> self.order[i] != self.order[j])
        &&& (forall|c: (int, int)| #[trigger]
            self.data.contains_key(c) <==> self.order.contains(c))
        &&& (forall|c: (int, int)|
            self.data.contains_key(c) ==> (#[trigger] self.data[c]).len() == self.buffer_len())
        &&& (forall|i: int, j: int|
            0 <= i < j < self.buckets.len() ==> (#[trigger] self.buckets[i]).0 != (
            #[trigger] self.buckets[j]).0)
        &&& (forall|i: int|
            0 <= i < self.buckets.len() ==> self.data.contains_key(
                (#[trigger] self.buckets[i]).0,
            ))
        &&& (forall|i: int, j: int|
            0 <= i < self.buckets.len() && 0 <= j < self.buckets[i].1.len() ==> stamp_in_range(
                #[trigger] self.buckets[i].1[j],
            ))
        &&& (forall|i: int| 0 <= i < self.queue.len() ==> stamp_in_range(#[trigger] self.queue[i]))
        &&& (forall|i: int|
            0 <= i < self.pixel_queue.len() ==> (#[trigger] self.pixel_queue[i]).1.len() == 4)
    }
}

/// The canvas after the chunk at `c` has been materialized: a no-op when the
/// chunk already exists, otherwise the template buffer is registered under
/// the next slot.
pub open spec fn ensure_chunk_m(m: CanvasModel, c: (int, int)) -> CanvasModel {
    if m.data.contains_key(c) {
        m
    } else {
        CanvasModel { order: m.order.push(c), data: m.data.insert(c, m.template), ..m }
    }
}

/// Materializing a chunk twice is the same as materializing it once, and
/// the second call stores nothing new.
pub proof fn lemma_ensure_chunk_idempotent(m: CanvasModel, c: (int, int))
    ensures
        ensure_chunk_m(ensure_chunk_m(m, c), c) == ensure_chunk_m(m, c),
        ensure_chunk_m(ensure_chunk_m(m, c), c).order.len() == ensure_chunk_m(m, c).order.len(),
        !m.data.contains_key(c) ==> ensure_chunk_m(m, c).order.len() == m.order.len() + 1,
        m.data.contains_key(c) ==> ensure_chunk_m(m, c) == m,
{
}

/// `buf` with the 4 bytes starting at `off` replaced by `color`.
pub open spec fn update4(buf: Seq<u8>, off: int, color: Seq<u8>) -> Seq<u8> {
    Seq::new(buf.len(), |i: int| if off <= i < off + 4 { color[i - off] } else { buf[i] })
}

/// The canvas after one CPU pixel write at world position `(px, py)`: the
/// position's chunk is materialized if absent, then the 4 bytes at the
/// position's offset are overwritten with `color`.
pub open spec fn write_pixel_m(m: CanvasModel, px: int, py: int, color: Seq<u8>) -> CanvasModel {
    let c = m.chunk_of(px, py);
    let m1 = ensure_chunk_m(m, c);
    CanvasModel { data: m1.data.insert(c, update4(m1.data[c], m.byte_offset(px, py), color)), ..m1 }
}

/// The canvas after a batch of CPU pixel writes, applied first to last.
pub open spec fn write_all_m(m: CanvasModel, ps: Seq<(int, int)>, cs: Seq<Seq<u8>>) -> CanvasModel
    decreases ps.len(),
{
    if ps.len() == 0 {
        m
    } else {
        write_all_m(write_pixel_m(m, ps[0].0, ps[0].1, cs[0]), ps.skip(1), cs.skip(1))
    }
}

/// The color the CPU read path yields for world position `(px, py)`: the 4
/// bytes at the position's offset when its chunk is materialized, and the
/// canvas's default fill color otherwise.
pub open spec fn read_pixel_m(m: CanvasModel, px: int, py: int) -> Seq<u8> {
    let c = m.chunk_of(px, py);
    if m.data.contains_key(c) {
        m.data[c].subrange(m.byte_offset(px, py), m.byte_offset(px, py) + 4)
    } else {
        m.default_color
    }
}

/// A write is observable: reading a position right after writing it yields
/// the written color, whether the position's chunk was absent (and got
/// materialized by the write) or already existed.
#[verifier::spinoff_prover]
pub proof fn lemma_write_then_read(m: CanvasModel, px: int, py: int, color: Seq<u8>)
    requires
        m.wf(),
        color.len() == 4,
    ensures
        read_pixel_m(write_pixel_m(m, px, py, color), px, py) == color,
{
    let c = m.chunk_of(px, py);
    let m1 = ensure_chunk_m(m, c);
    let off = m.byte_offset(px, py);
    lemma_index_at_bounds(px, py, m.chunk_w, m.chunk_h);
    assert(m1.data[c].len() == m.buffer_len());
    let written = update4(m1.data[c], off, color);
    let m2 = write_pixel_m(m, px, py, color);
    assert(m2.chunk_of(px, py) == c);
    assert(m2.data[c] == written);
    assert(4 * index_at(px, py, m.chunk_w, m.chunk_h) + 4 <= m.buffer_len()) by {
        assert(index_at(px, py, m.chunk_w, m.chunk_h) + 1 <= m.chunk_w * m.chunk_h);
    }
    assert(written.subrange(off, off + 4) =~= color);
}

/// Reading a position whose chunk was never materialized yields exactly the
/// canvas's default fill color.
pub proof fn lemma_unpainted_read(m: CanvasModel, px: int, py: int)
    requires
        !m.data.contains_key(m.chunk_of(px, py)),
    ensures
        read_pixel_m(m, px, py) == m.default_color,
{
}

/// The chunk coordinates of a rectangle `[x0, x1] × [y0, y1]` (inclusive),
/// enumerated column by column: all `y` for `x0`, then all `y` for `x0 + 1`,
/// and so on.
pub open spec fn rect_coords(x0: int, y0: int, x1: int, y1: int) -> Seq<(int, int)>
    recommends
        x0 <= x1,
        y0 <= y1,
{
    let h = y1 - y0 + 1;
    Seq::new((((x1 - x0 + 1) * h)) as nat, |k: int| (x0 + k / h, y0 + k % h))
}

/// A coordinate lies in the enumerated rectangle exactly when it lies in
/// both inclusive ranges.
pub proof fn lemma_rect_coords_membership(x0: int, y0: int, x1: int, y1: int, c: (int, int))
    requires
        x0 <= x1,
        y0 <= y1,
    ensures
        rect_coords(x0, y0, x1, y1).contains(c) <==> (x0 <= c.0 <= x1 && y0 <= c.1 <= y1),
{
    let h = y1 - y0 + 1;
    let w = x1 - x0 + 1;
    let coords = rect_coords(x0, y0, x1, y1);
    assert(0 < w * h) by (nonlinear_arith)
        requires
            0 < w,
            0 < h,
    ;
    if coords.contains(c) {
        let k = choose|k: int| 0 <= k < coords.len() && coords[k] == c;
        lemma_mod_bound(k, h);
        lemma_fundamental_div_mod(k, h);
        assert(k / h < w) by {
            if k / h >= w {
                lemma_mul_inequality(w, k / h, h);
                assert(w * h <= (k / h) * h);
                assert((k / h) * h == h * (k / h)) by (nonlinear_arith);
            }
        }
        assert(0 <= k / h) by {
            if k / h < 0 {
                assert((k / h) <= -1);
                lemma_mul_inequality(k / h, -1, h);
                assert((k / h) * h <= -1 * h) by (nonlinear_arith)
                    requires
                        k / h <= -1,
                        0 < h,
                ;
                assert(h * (k / h) == (k / h) * h) by (nonlinear_arith);
            }
        }
    }
    if x0 <= c.0 <= x1 && y0 <= c.1 <= y1 {
        let k = (c.0 - x0) * h + (c.1 - y0);
        assert(0 <= k) by (nonlinear_arith)
            requires
                0 <= c.0 - x0,
                0 < h,
                0 <= c.1 - y0,
                k == (c.0 - x0) * h + (c.1 - y0),
        ;
        assert(k < w * h) by (nonlinear_arith)
            requires
                c.0 - x0 <= w - 1,
                c.1 - y0 <= h - 1,
                0 < h,
                k == (c.0 - x0) * h + (c.1 - y0),
        ;
        lemma_fundamental_div_mod_converse_div(k, h, c.0 - x0, c.1 - y0);
        lemma_fundamental_div_mod_converse_mod(k, h, c.0 - x0, c.1 - y0);
        assert(rect_coords(x0, y0, x1, y1)[k] == c);
    }
}

/// The chunk coordinates a stamp is distributed to: the chunks its corners
/// touch, padded by one chunk on every side so a stamp whose edge lies on a
/// chunk boundary still reaches the neighbor the downstream shader may
/// sample.
pub open spec fn footprint_coords(s: StampModel, cw: int, ch: int) -> Seq<(int, int)> {
    rect_coords(
        outer_coord(s.pos.0, cw) - 1,
        outer_coord(s.pos.1, ch) - 1,
        outer_coord(s.pos.0 + s.size.0, cw) + 1,
        outer_coord(s.pos.1 + s.size.1, ch) + 1,
    )
}

/// The padded footprint is a nonempty rectangle.
pub proof fn lemma_footprint_nonempty(s: StampModel, cw: int, ch: int)
    requires
        0 < cw,
        0 < ch,
        0 <= s.size.0,
        0 <= s.size.1,
    ensures
        outer_coord(s.pos.0, cw) - 1 <= outer_coord(s.pos.0 + s.size.0, cw) + 1,
        outer_coord(s.pos.1, ch) - 1 <= outer_coord(s.pos.1 + s.size.1, ch) + 1,
{
    lemma_div_is_ordered(s.pos.0, s.pos.0 + s.size.0, cw);
    lemma_div_is_ordered(s.pos.1, s.pos.1 + s.size.1, ch);
}

/// A chunk coordinate lies in a stamp's padded footprint exactly when it
/// lies within one chunk of the rectangle of chunks the stamp itself
/// touches.
pub proof fn lemma_footprint_membership(s: StampModel, cw: int, ch: int, c: (int, int))
    requires
        0 < cw,
        0 < ch,
        0 <= s.size.0,
        0 <= s.size.1,
    ensures
        footprint_coords(s, cw, ch).contains(c) <==> {
            &&& outer_coord(s.pos.0, cw) - 1 <= c.0 <= outer_coord(s.pos.0 + s.size.0, cw) + 1
            &&& outer_coord(s.pos.1, ch) - 1 <= c.1 <= outer_coord(s.pos.1 + s.size.1, ch) + 1
        },
{
    lemma_footprint_nonempty(s, cw, ch);
    lemma_rect_coords_membership(
        outer_coord(s.pos.0, cw) - 1,
        outer_coord(s.pos.1, ch) - 1,
        outer_coord(s.pos.0 + s.size.0, cw) + 1,
        outer_coord(s.pos.1 + s.size.1, ch) + 1,
        c,
    );
}

/// Whether the overlap table already has a bucket for coordinate `c`.
pub open spec fn buckets_has_key(bs: Seq<((int, int), Seq<StampModel>)>, c: (int, int)) -> bool {
    exists|i: int| 0 <= i < bs.len() && bs[i].0 == c
}

/// The first bucket holding coordinate `c`.
pub open spec fn bucket_key_index(bs: Seq<((int, int), Seq<StampModel>)>, c: (int, int)) -> int
    decreases bs.len(),
{
    if bs.len() == 0 {
        0
    } else if bs[0].0 == c {
        0
    } else {
        1 + bucket_key_index(bs.skip(1), c)
    }
}

/// When the table has a bucket for `c`, `bucket_key_index` names the first
/// one.
pub proof fn lemma_bucket_key_index(bs: Seq<((int, int), Seq<StampModel>)>, c: (int, int))
    requires
        buckets_has_key(bs, c),
    ensures
        0 <= bucket_key_index(bs, c) < bs.len(),
        bs[bucket_key_index(bs, c)].0 == c,
        forall|j: int| 0 <= j < bucket_key_index(bs, c) ==> bs[j].0 != c,
    decreases bs.len(),
{
    if bs.len() > 0 && bs[0].0 != c {
        assert(buckets_has_key(bs.skip(1), c)) by {
            let i = choose|i: int| 0 <= i < bs.len() && bs[i].0 == c;
            assert(bs.skip(1)[i - 1] == bs[i]);
        }
        lemma_bucket_key_index(bs.skip(1), c);
        assert forall|j: int| 0 <= j < bucket_key_index(bs, c) implies bs[j].0 != c by {
            if j > 0 {
                assert(bs.skip(1)[j - 1] == bs[j]);
            }
        }
    }
}

/// The overlap table after stamp `s` is appended to the bucket at `c`,
/// creating that bucket at the end of the table when absent.
pub open spec fn bucket_add(
    bs: Seq<((int, int), Seq<StampModel>)>,
    c: (int, int),
    s: StampModel,
) -> Seq<((int, int), Seq<StampModel>)> {
    if buckets_has_key(bs, c) {
        let i = bucket_key_index(bs, c);
        bs.update(i, (c, bs[i].1.push(s)))
    } else {
        bs.push((c, seq![s]))
    }
}

/// The overlap table after stamp `s` is appended to the buckets of each
/// coordinate of `coords`, in order.
pub open spec fn distribute_coords(
    bs: Seq<((int, int), Seq<StampModel>)>,
    s: StampModel,
    coords: Seq<(int, int)>,
) -> Seq<((int, int), Seq<StampModel>)>
    decreases coords.len(),
{
    if coords.len() == 0 {
        bs
    } else {
        distribute_coords(bucket_add(bs, coords[0], s), s, coords.skip(1))
    }
}

/// The overlap table after every stamp of `stamps`, in order, is appended
/// to the buckets of its padded footprint.
pub open spec fn distribute_stamps(
    bs: Seq<((int, int), Seq<StampModel>)>,
    stamps: Seq<StampModel>,
    cw: int,
    ch: int,
) -> Seq<((int, int), Seq<StampModel>)>
    decreases stamps.len(),
{
    if stamps.len() == 0 {
        bs
    } else {
        distribute_stamps(
            distribute_coords(bs, stamps[0], footprint_coords(stamps[0], cw, ch)),
            stamps.skip(1),
            cw,
            ch,
        )
    }
}

/// The bucket coordinates of an overlap table, in table order.
pub open spec fn bucket_keys(bs: Seq<((int, int), Seq<StampModel>)>) -> Seq<(int, int)> {
    Seq::new(bs.len(), |i: int| bs[i].0)
}

/// The canvas after the chunks at every coordinate of `cs`, in order, have
/// been materialized.
pub open spec fn ensure_all_m(m: CanvasModel, cs: Seq<(int, int)>) -> CanvasModel
    decreases cs.len(),
{
    if cs.len() == 0 {
        m
    } else {
        ensure_all_m(ensure_chunk_m(m, cs[0]), cs.skip(1))
    }
}

/// Materializing chunks leaves everything but the chunk store untouched.
pub proof fn lemma_ensure_all_preserves_rest(m: CanvasModel, cs: Seq<(int, int)>)
    ensures
        ensure_all_m(m, cs).chunk_w == m.chunk_w,
        ensure_all_m(m, cs).chunk_h == m.chunk_h,
        ensure_all_m(m, cs).root == m.root,
        ensure_all_m(m, cs).default_color == m.default_color,
        ensure_all_m(m, cs).template == m.template,
        ensure_all_m(m, cs).queue == m.queue,
        ensure_all_m(m, cs).buckets == m.buckets,
        ensure_all_m(m, cs).pixel_queue == m.pixel_queue,
        ensure_all_m(m, cs).sim_shaders == m.sim_shaders,
        ensure_all_m(m, cs).sampler == m.sampler,
    decreases cs.len(),
{
    if cs.len() != 0 {
        lemma_ensure_all_preserves_rest(ensure_chunk_m(m, cs[0]), cs.skip(1));
    }
}

/// A batch of writes leaves the stamp queue, the overlap table, the pixel
/// queue and the canvas configuration untouched: only the chunk store
/// changes.
pub proof fn lemma_write_all_preserves_rest(m: CanvasModel, ps: Seq<(int, int)>, cs: Seq<Seq<u8>>)
    ensures
        write_all_m(m, ps, cs).chunk_w == m.chunk_w,
        write_all_m(m, ps, cs).chunk_h == m.chunk_h,
        write_all_m(m, ps, cs).root == m.root,
        write_all_m(m, ps, cs).default_color == m.default_color,
        write_all_m(m, ps, cs).template == m.template,
        write_all_m(m, ps, cs).queue == m.queue,
        write_all_m(m, ps, cs).buckets == m.buckets,
        write_all_m(m, ps, cs).pixel_queue == m.pixel_queue,
        write_all_m(m, ps, cs).sim_shaders == m.sim_shaders,
        write_all_m(m, ps, cs).sampler == m.sampler,
    decreases ps.len(),
{
    if ps.len() != 0 {
        lemma_write_all_preserves_rest(write_pixel_m(m, ps[0].0, ps[0].1, cs[0]), ps.skip(1), cs.skip(1));
    }
}

} // verus!
