//! A chunked voxel world core: dense per-chunk block storage, a sparse world
//! map with deferred cross-chunk overflow buffers, structure stamping that may
//! spill into not-yet-generated neighbor chunks, a deduplicated remesh queue,
//! and the break/place edit pipeline driven by a resolved ray-cast hit.
use vstd::prelude::*;

pub mod chunkmap;
pub mod grid;
pub mod player;
pub mod queue;
pub mod structures;
pub mod world;

verus! {

/// Horizontal side length of a chunk, in blocks.
pub const CHUNK_WIDTH: usize = 8;

/// Vertical extent of a chunk, in blocks.
pub const CHUNK_HEIGHT: usize = 256;

/// Number of blocks in one chunk.
pub const CHUNK_VOL: usize = CHUNK_WIDTH * CHUNK_WIDTH * CHUNK_HEIGHT;

/// Chunks a player can see in each direction; fixed at the boundary so that
/// the embedding and this core agree on world extent.
pub const RENDER_DISTANCE: i32 = 24;

} // verus!
