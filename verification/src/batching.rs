use vstd::prelude::*;
use crate::pixel_map::PixelPositionedTexture;
use vstd::arithmetic::div_mod::{
    lemma_div_plus_one, lemma_fundamental_div_mod, lemma_mod_bound,
};
use vstd::arithmetic::mul::lemma_mul_inequality;

verus! {

/// Number of source-texture slots in the stamp compute shader's binding
/// layout: every stamp dispatch binds exactly this many source textures.
pub const BATCH_WIDTH: usize = 8;

/// Partitions a bucket's stamps into batches of exactly `width` entries.
///
/// Batch `i`, slot `j` holds the real stamp at `i * width + j`; the final,
/// possibly short batch is padded by repeating the last real stamp, so no
/// binding slot is ever left referencing nothing and the compute kernel
/// needs no bounds branch. An empty bucket yields no batches.
pub fn batch_with_repeat(stamps: &Vec<PixelPositionedTexture>, width: usize) -> (r: Vec<
    Vec<PixelPositionedTexture>,
>)
    requires
        1 <= width,
    ensures
        stamps@.len() == 0 ==> r@.len() == 0,
        stamps@.len() > 0 ==> r@.len() == (stamps@.len() + width - 1) / (width as int),
        forall|i: int| 0 <= i < r@.len() ==> (#[trigger] r@[i])@.len() == width,
        forall|i: int, j: int|
            0 <= i < r@.len() && 0 <= j < width ==> #[trigger] r@[i]@[j] == (if i * width + j
                < stamps@.len() {
                stamps@[i * width + j]
            } else {
                stamps@.last()
            }),
{
    let ghost n = stamps@.len() as int;
    let ghost w = width as int;
    let mut r: Vec<Vec<PixelPositionedTexture>> = Vec::new();
    if stamps.len() == 0 {
        return r;
    }
    let last = stamps.len() - 1;
    let nb = last / width + 1;
    proof {
        lemma_div_plus_one(n - 1, w);
        lemma_fundamental_div_mod(n - 1, w);
        lemma_mod_bound(n - 1, w);
        vstd::arithmetic::mul::lemma_mul_is_commutative((n - 1) / w, w);
    }
    let mut b: usize = 0;
    while b < nb
        invariant
            1 <= w,
            w == width,
            n == stamps@.len(),
            0 < n,
            last == n - 1,
            nb == (n - 1) / w + 1,
            nb == (n + w - 1) / w,
            ((n - 1) / w) * w <= n - 1,
            b <= nb,
            r@.len() == b,
            forall|bi: int| 0 <= bi < r@.len() ==> (#[trigger] r@[bi])@.len() == width,
            forall|bi: int, k: int|
                0 <= bi < r@.len() && 0 <= k < w ==> #[trigger] r@[bi]@[k] == (if bi * w + k
                    < n {
                    stamps@[bi * w + k]
                } else {
                    stamps@.last()
                }),
        decreases nb - b,
    {
        proof {
            lemma_mul_inequality(b as int, nb - 1, w);
            assert((nb - 1) * w == ((n - 1) / w) * w);
        }
        let start = b * width;
        let mut batch: Vec<PixelPositionedTexture> = Vec::new();
        let mut j: usize = 0;
        while j < width
            invariant
                1 <= w,
                w == width,
                n == stamps@.len(),
                0 < n,
                last == n - 1,
                start == b * w,
                start <= last,
                j <= width,
                batch@.len() == j,
                forall|k: int|
                    0 <= k < j ==> #[trigger] batch@[k] == (if b * w + k < n {
                        stamps@[b * w + k]
                    } else {
                        stamps@.last()
                    }),
            decreases width - j,
        {
            let idx = if j <= last - start {
                start + j
            } else {
                last
            };
            batch.push(stamps[idx]);
            j += 1;
        }
        r.push(batch);
        b += 1;
    }
    r
}

} // verus!
