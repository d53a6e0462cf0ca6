//! The authoritative spatial index: materialized chunks plus reserved
//! overflow buffers awaiting their chunk's generation.
use vstd::prelude::*;
use crate::CHUNK_VOL;
use crate::chunkmap::ChunkMap;
use crate::grid::{BlockGrid, BlockType, index_spec, valid_coords};

verus! {

/// The merge of a reserved overflow buffer over freshly generated base
/// terrain: an overflow cell wins wherever it holds a non-Air value, since
/// overflow records deliberate structure placement.
pub open spec fn merge_spec(overflow: Seq<BlockType>, base: Seq<BlockType>) -> Seq<BlockType> {
    Seq::new(base.len(), |n: int|
        if overflow[n] != BlockType::Air { overflow[n] } else { base[n] })
}

/// Sparse world state: generated chunks and pending cross-chunk writes.
pub struct WorldMap {
    chunks: ChunkMap,
    reserved_chunk_data: ChunkMap,
}

impl WorldMap {
    /// The materialized chunks, as a map from coordinate to cell sequence.
    pub closed spec fn chunks_view(&self) -> Map<(i32, i32), Seq<BlockType>> {
        self.chunks@
    }

    /// The reserved overflow buffers, as a map from coordinate to cell
    /// sequence.
    pub closed spec fn reserved_view(&self) -> Map<(i32, i32), Seq<BlockType>> {
        self.reserved_chunk_data@
    }

    /// Both underlying maps keep unique keys and full-size grids.
    pub closed spec fn wf(&self) -> bool {
        self.chunks.wf() && self.reserved_chunk_data.wf()
    }

    /// Every grid held by a well-formed world has one cell per coordinate.
    pub proof fn lemma_wf_values(&self, k: (i32, i32))
        requires
            self.wf(),
        ensures
            self.chunks_view().contains_key(k) ==> self.chunks_view()[k].len() == CHUNK_VOL,
            self.reserved_view().contains_key(k) ==> self.reserved_view()[k].len() == CHUNK_VOL,
    {
        if self.chunks_view().contains_key(k) {
            self.chunks.lemma_wf_values(k);
        }
        if self.reserved_view().contains_key(k) {
            self.reserved_chunk_data.lemma_wf_values(k);
        }
    }

    /// An empty world: nothing generated, nothing reserved.
    pub fn new() -> (r: WorldMap)
        ensures
            r.wf(),
            r.chunks_view() == Map::<(i32, i32), Seq<BlockType>>::empty(),
            r.reserved_view() == Map::<(i32, i32), Seq<BlockType>>::empty(),
    {
        WorldMap { chunks: ChunkMap::new(), reserved_chunk_data: ChunkMap::new() }
    }

    /// Whether a chunk has been materialized.
    pub fn is_materialized(&self, chunk_coord: (i32, i32)) -> (r: bool)
        requires
            self.wf(),
        ensures
            r == self.chunks_view().contains_key(chunk_coord),
    {
        self.chunks.contains(chunk_coord)
    }

    /// Read a block out of a materialized chunk; `None` signals a chunk that
    /// has not been generated.
    pub fn get_block(&self, chunk_coord: (i32, i32), x: usize, y: usize, z: usize)
        -> (r: Option<BlockType>)
        requires
            self.wf(),
            valid_coords(x as int, y as int, z as int),
        ensures
            r == if self.chunks_view().contains_key(chunk_coord) {
                Some(self.chunks_view()[chunk_coord][index_spec(x as int, y as int, z as int)])
            } else {
                None::<BlockType>
            },
    {
        match self.chunks.get(chunk_coord) {
            Some(grid) => Some(grid.get(x, y, z)),
            None => None,
        }
    }

    /// Overwrite one block of an already materialized chunk.
    pub fn set_block(
        &mut self,
        chunk_coord: (i32, i32),
        x: usize,
        y: usize,
        z: usize,
        block: BlockType,
    )
        requires
            old(self).wf(),
            old(self).chunks_view().contains_key(chunk_coord),
            valid_coords(x as int, y as int, z as int),
        ensures
            final(self).wf(),
            final(self).chunks_view() == old(self).chunks_view().insert(
                chunk_coord,
                old(self).chunks_view()[chunk_coord].update(
                    index_spec(x as int, y as int, z as int),
                    block,
                ),
            ),
            final(self).reserved_view() == old(self).reserved_view(),
    {
        proof {
            self.chunks.lemma_wf_values(chunk_coord);
        }
        let mut grid = self.chunks.remove(chunk_coord).unwrap();
        grid.set(x, y, z, block);
        self.chunks.insert(chunk_coord, grid);
        proof {
            assert(self.chunks_view() =~= old(self).chunks_view().insert(
                chunk_coord,
                old(self).chunks_view()[chunk_coord].update(
                    index_spec(x as int, y as int, z as int),
                    block,
                ),
            ));
        }
    }

    /// Buffer overflow writes for a chunk that may not exist yet, replacing
    /// any buffer already held for that coordinate.
    pub fn insert_reserved(&mut self, chunk_coord: (i32, i32), grid: BlockGrid)
        requires
            old(self).wf(),
            grid.wf(),
        ensures
            final(self).wf(),
            final(self).reserved_view() == old(self).reserved_view().insert(chunk_coord, grid@),
            final(self).chunks_view() == old(self).chunks_view(),
    {
        self.reserved_chunk_data.insert(chunk_coord, grid);
    }

    /// Consume the overflow buffer for a chunk, if one is pending; the entry
    /// is removed so it merges exactly once.
    pub fn take_reserved(&mut self, chunk_coord: (i32, i32)) -> (r: Option<BlockGrid>)
        requires
            old(self).wf(),
        ensures
            final(self).wf(),
            final(self).chunks_view() == old(self).chunks_view(),
            match r {
                Some(g) => old(self).reserved_view().contains_key(chunk_coord)
                    && g@ == old(self).reserved_view()[chunk_coord]
                    && g.wf()
                    && final(self).reserved_view()
                        == old(self).reserved_view().remove(chunk_coord),
                None => !old(self).reserved_view().contains_key(chunk_coord)
                    && final(self).reserved_view() == old(self).reserved_view(),
            },
    {
        self.reserved_chunk_data.remove(chunk_coord)
    }

    /// Make a chunk authoritative: merge any pending overflow into the
    /// freshly generated base grid (overflow wins on non-Air cells), consume
    /// the overflow entry, and store the result.
    pub fn materialize(&mut self, chunk_coord: (i32, i32), base_grid: BlockGrid)
        requires
            old(self).wf(),
            base_grid.wf(),
        ensures
            final(self).wf(),
            final(self).chunks_view() == old(self).chunks_view().insert(
                chunk_coord,
                if old(self).reserved_view().contains_key(chunk_coord) {
                    merge_spec(old(self).reserved_view()[chunk_coord], base_grid@)
                } else {
                    base_grid@
                },
            ),
            final(self).reserved_view() == old(self).reserved_view().remove(chunk_coord),
    {
        let merged = match self.reserved_chunk_data.remove(chunk_coord) {
            Some(overflow) => merge_grids(&overflow, base_grid),
            None => {
                proof {
                    assert(old(self).reserved_view().remove(chunk_coord)
                        =~= old(self).reserved_view());
                }
                base_grid
            },
        };
        self.chunks.insert(chunk_coord, merged);
    }
}

/// Writing a block and reading it back at the same coordinates yields the
/// written value: the chunk map after `set_block` answers `get_block` at
/// those coordinates with exactly the block that was stored.
pub proof fn lemma_set_then_get(
    chunks: Map<(i32, i32), Seq<BlockType>>,
    c: (i32, i32),
    x: int,
    y: int,
    z: int,
    b: BlockType,
)
    requires
        chunks.contains_key(c),
        chunks[c].len() == CHUNK_VOL,
        valid_coords(x, y, z),
    ensures
        ({
            let updated = chunks.insert(c, chunks[c].update(index_spec(x, y, z), b));
            updated.contains_key(c) && updated[c][index_spec(x, y, z)] == b
        }),
{
    crate::grid::lemma_index_in_range(x, y, z);
}

/// Overlay an overflow buffer onto base terrain, cell by cell.
fn merge_grids(overflow: &BlockGrid, base: BlockGrid) -> (r: BlockGrid)
    requires
        overflow.wf(),
        base.wf(),
    ensures
        r.wf(),
        r@ == merge_spec(overflow@, base@),
{
    let ghost base0 = base@;
    let mut out = base;
    let mut n: usize = 0;
    while n < CHUNK_VOL
        invariant
            overflow.wf(),
            out.wf(),
            base0.len() == CHUNK_VOL,
            n <= CHUNK_VOL,
            forall|i: int| 0 <= i < n ==> out@[i] == merge_spec(overflow@, base0)[i],
            forall|i: int| n <= i < CHUNK_VOL ==> out@[i] == base0[i],
        decreases CHUNK_VOL - n,
    {
        let ov = overflow.get_raw(n);
        if ov != BlockType::Air {
            out.set_raw(n, ov);
        }
        n = n + 1;
    }
    proof {
        assert(out@ =~= merge_spec(overflow@, base0));
    }
    out
}

} // verus!
