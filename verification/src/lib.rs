//! A sparse, effectively infinite 2D pixel canvas made of fixed-size
//! chunks, with a verified core: chunk addressing, the lazy chunk store,
//! the CPU pixel read/write paths, the per-frame stamp overlap resolver,
//! fixed-width dispatch batching, and the binding/dispatch planner for the
//! GPU compositing passes. A host engine performs the entity and GPU work
//! these decisions call for.

use vstd::prelude::*;

pub mod batching;
pub mod chunk_position;
pub mod model;
pub mod pixel_map;
pub mod render;

pub use batching::{batch_with_repeat, BATCH_WIDTH};
pub use chunk_position::{get_chunk_index_i, get_chunk_inner_i, get_chunk_outer_i, IVec2, UVec2};
pub use pixel_map::{
    add_pixel_map_chunks, prepare_chunks, ChunkSpawn, PixelChunk, PixelMap,
    PixelPositionedTexture,
};
pub use render::{
    apply_ops, chunk_origin_buffer, chunk_size_buffer, prepare_binds, stamp_positions_buffer,
    stamp_sizes_buffer, DispatchOp, PassLayer, PipelineRequest, RenderData,
};

verus! {

/// Why a batched CPU pixel write was rejected.
#[derive(Clone, Copy, PartialEq, Eq, Structural, Debug)]
pub enum PixelMapError {
    /// The position vector and the color vector have different lengths.
    LengthMismatch,
}

/// How the host should sample chunk textures when it draws them.
#[derive(Clone, Copy, PartialEq, Eq, Structural, Debug)]
pub enum SamplingMode {
    /// Nearest-texel sampling: crisp pixels, the canvas default.
    Nearest,
    /// Linear filtering between neighboring texels.
    Linear,
}

} // verus!
