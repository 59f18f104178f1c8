use vstd::prelude::*;
use vstd::arithmetic::div_mod::{
    lemma_div_is_ordered, lemma_div_nonincreasing, lemma_div_of0, lemma_div_pos_is_pos,
    lemma_fundamental_div_mod, lemma_mod_bound,
};
use vstd::arithmetic::mul::{lemma_mul_inequality, lemma_mul_is_commutative};

verus! {

/// A signed 2D coordinate: either a world pixel position or a chunk
/// coordinate in the unbounded chunk grid.
#[derive(Clone, Copy, PartialEq, Eq, Structural, Debug, Hash)]
pub struct IVec2 {
    pub x: i32,
    pub y: i32,
}

/// An unsigned 2D extent: chunk dimensions or a stamp's size, in pixels.
#[derive(Clone, Copy, PartialEq, Eq, Structural, Debug, Hash)]
pub struct UVec2 {
    pub x: u32,
    pub y: u32,
}

/// A chunk size usable for addressing: positive in both components and small
/// enough that signed arithmetic on world coordinates stays exact.
pub open spec fn chunk_size_in_range(chunk_size: UVec2) -> bool {
    &&& 0 < chunk_size.x <= i32::MAX
    &&& 0 < chunk_size.y <= i32::MAX
}

/// Chunk coordinate of a world coordinate along one axis. For a positive
/// size this is floor division (never truncating division, which would
/// shift every negative-axis chunk by one).
pub open spec fn outer_coord(p: int, size: int) -> int {
    p / size
}

/// Offset of a world coordinate inside its chunk along one axis: the
/// Euclidean remainder, always in `[0, size)` for a positive size.
pub open spec fn inner_coord(p: int, size: int) -> int {
    p % size
}

/// Linear texel index of world position `(px, py)` inside its chunk, for a
/// chunk of `w` by `h` pixels: row-major with the vertical axis flipped, so
/// index 0 is the chunk's top-left texel as the graphics backend stores
/// texture rows. The byte offset into a chunk's RGBA buffer is four times
/// this.
pub open spec fn index_at(px: int, py: int, w: int, h: int) -> int {
    (h - inner_coord(py, h) - 1) * w + inner_coord(px, w)
}

/// The texel index of any world position lies below the chunk's texel
/// count.
pub proof fn lemma_index_at_bounds(px: int, py: int, w: int, h: int)
    requires
        0 < w,
        0 < h,
    ensures
        0 <= index_at(px, py, w, h),
        index_at(px, py, w, h) < w * h,
{
    lemma_mod_bound(px, w);
    lemma_mod_bound(py, h);
    let row = h - inner_coord(py, h) - 1;
    assert(0 <= row <= h - 1);
    assert(0 <= row * w) by (nonlinear_arith)
        requires
            0 <= row,
            0 < w,
    ;
    lemma_mul_inequality(row, h - 1, w);
    assert((h - 1) * w == h * w - w) by (nonlinear_arith);
    assert(h * w == w * h) by (nonlinear_arith);
}

/// The texel index of a world position inside its chunk.
pub open spec fn chunk_index(position: IVec2, chunk_size: UVec2) -> int {
    index_at(position.x as int, position.y as int, chunk_size.x as int, chunk_size.y as int)
}

/// Dividing by a positive divisor moves the dividend toward zero and never
/// past it: the quotient lies between the dividend and zero.
pub proof fn lemma_div_between(l: int, d: int)
    requires
        0 < d,
    ensures
        l < 0 ==> l <= l / d && l / d <= 0,
        0 <= l ==> 0 <= l / d && l / d <= l,
{
    if l >= 0 {
        lemma_div_pos_is_pos(l, d);
        lemma_div_nonincreasing(l, d);
    } else {
        lemma_div_is_ordered(l, 0, d);
        lemma_div_of0(d);
        let q = l / d;
        let r = l % d;
        lemma_fundamental_div_mod(l, d);
        lemma_mod_bound(l, d);
        if q < l {
            lemma_mul_inequality(q, l - 1, d);
            lemma_mul_inequality(1, d, -l);
            assert(d * q == q * d) by (nonlinear_arith);
            assert((l - 1) * d == l * d - d) by (nonlinear_arith);
            assert(l * d <= -(-l * d)) by (nonlinear_arith);
            assert(-l * 1 <= -l * d ==> l * d <= l) by (nonlinear_arith);
            assert(false);
        }
    }
}

/// The quotient of an `i32` by a positive divisor stays inside `i32`.
proof fn lemma_div_stays_in_i32(l: int, d: int)
    requires
        i32::MIN <= l <= i32::MAX,
        0 < d,
    ensures
        i32::MIN <= l / d <= i32::MAX,
{
    lemma_div_between(l, d);
}

/// Per-axis chunk offset of a world position: the Euclidean remainder of the
/// position by the chunk size, so it lands in `[0, chunk_size)` on both axes
/// whatever the sign of the position.
pub fn get_chunk_inner_i(position: IVec2, chunk_size: UVec2) -> (r: UVec2)
    requires
        chunk_size_in_range(chunk_size),
    ensures
        r.x == inner_coord(position.x as int, chunk_size.x as int),
        r.y == inner_coord(position.y as int, chunk_size.y as int),
        r.x < chunk_size.x,
        r.y < chunk_size.y,
{
    proof {
        lemma_mod_bound(position.x as int, chunk_size.x as int);
        lemma_mod_bound(position.y as int, chunk_size.y as int);
    }
    let rx: i32 = position.x.checked_rem_euclid(chunk_size.x as i32).unwrap();
    let ry: i32 = position.y.checked_rem_euclid(chunk_size.y as i32).unwrap();
    UVec2 { x: rx as u32, y: ry as u32 }
}

/// Chunk coordinate holding a world position: component-wise floor division
/// by the chunk size.
pub fn get_chunk_outer_i(position: IVec2, chunk_size: UVec2) -> (r: IVec2)
    requires
        chunk_size_in_range(chunk_size),
    ensures
        r.x == outer_coord(position.x as int, chunk_size.x as int),
        r.y == outer_coord(position.y as int, chunk_size.y as int),
{
    proof {
        lemma_div_stays_in_i32(position.x as int, chunk_size.x as int);
        lemma_div_stays_in_i32(position.y as int, chunk_size.y as int);
    }
    let rx: i32 = position.x.checked_div_euclid(chunk_size.x as i32).unwrap();
    let ry: i32 = position.y.checked_div_euclid(chunk_size.y as i32).unwrap();
    IVec2 { x: rx, y: ry }
}

/// Linear texel index of a world position inside its chunk; always below the
/// chunk's texel count.
pub fn get_chunk_index_i(position: IVec2, chunk_size: UVec2) -> (r: usize)
    requires
        chunk_size_in_range(chunk_size),
        chunk_size.x * chunk_size.y <= usize::MAX,
    ensures
        r == chunk_index(position, chunk_size),
        r < chunk_size.x * chunk_size.y,
{
    let inner: UVec2 = get_chunk_inner_i(position, chunk_size);
    let row: u64 = (chunk_size.y - inner.y - 1) as u64;
    proof {
        lemma_mul_inequality(row as int, chunk_size.y - 1, chunk_size.x as int);
        assert((chunk_size.y - 1) * chunk_size.x == chunk_size.y * chunk_size.x - chunk_size.x)
            by (nonlinear_arith);
        assert(chunk_size.y * chunk_size.x == chunk_size.x * chunk_size.y) by (nonlinear_arith);
    }
    let idx: u64 = row * (chunk_size.x as u64) + (inner.x as u64);
    idx as usize
}

/// The chunk coordinate and the inner offset decompose a world position
/// exactly: `outer * chunk_size + inner == position` on both axes, for every
/// position and every chunk size in range.
pub proof fn lemma_chunk_decomposition(position: IVec2, chunk_size: UVec2)
    requires
        chunk_size_in_range(chunk_size),
    ensures
        outer_coord(position.x as int, chunk_size.x as int) * (chunk_size.x as int) + inner_coord(
            position.x as int,
            chunk_size.x as int,
        ) == position.x as int,
        outer_coord(position.y as int, chunk_size.y as int) * (chunk_size.y as int) + inner_coord(
            position.y as int,
            chunk_size.y as int,
        ) == position.y as int,
{
    lemma_fundamental_div_mod(position.x as int, chunk_size.x as int);
    lemma_fundamental_div_mod(position.y as int, chunk_size.y as int);
    lemma_mul_is_commutative(position.x as int / chunk_size.x as int, chunk_size.x as int);
    lemma_mul_is_commutative(position.y as int / chunk_size.y as int, chunk_size.y as int);
}

} // verus!
