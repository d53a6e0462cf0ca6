//! Dense block storage for one chunk, addressed by local coordinates.
use vstd::prelude::*;
use vstd::pervasive::VecAdditionalExecFns;
use vstd::arithmetic::div_mod::{
    lemma_div_denominator, lemma_fundamental_div_mod, lemma_fundamental_div_mod_converse,
    lemma_mod_bound,
};
use crate::{CHUNK_HEIGHT, CHUNK_VOL, CHUNK_WIDTH};

verus! {

/// The closed set of block kinds a cell can hold. Identity is purely by
/// value; every consumer matches exhaustively.
#[derive(Clone, Copy, PartialEq, Eq, Structural, Debug)]
pub enum BlockType {
    Air,
    Stone,
    WoodLog,
    Leaves,
    Cactus,
}

/// A local coordinate triple is valid when x and z lie in `[0, CHUNK_WIDTH)`
/// and y lies in `[0, CHUNK_HEIGHT)`.
pub open spec fn valid_coords(x: int, y: int, z: int) -> bool {
    0 <= x < CHUNK_WIDTH && 0 <= y < CHUNK_HEIGHT && 0 <= z < CHUNK_WIDTH
}

/// Linear position of local coordinates inside a chunk's block sequence.
pub open spec fn index_spec(x: int, y: int, z: int) -> int {
    x + y * CHUNK_WIDTH + z * CHUNK_WIDTH * CHUNK_HEIGHT
}

/// Distinct valid coordinate triples map to distinct linear positions.
pub proof fn lemma_index_injective(x1: int, y1: int, z1: int, x2: int, y2: int, z2: int)
    requires
        valid_coords(x1, y1, z1),
        valid_coords(x2, y2, z2),
        index_spec(x1, y1, z1) == index_spec(x2, y2, z2),
    ensures
        x1 == x2 && y1 == y2 && z1 == z2,
{
    let d = (y2 - y1) + 256 * (z2 - z1);
    assert(x1 - x2 == 8 * d);
    assert(d == 0) by {
        if d >= 1 {
            assert(x1 - x2 >= 8);
        }
        if d <= -1 {
            assert(x1 - x2 <= -8);
        }
    }
    assert(y1 - y2 == 256 * (z2 - z1));
}

/// Every valid coordinate triple lands inside `[0, CHUNK_VOL)`.
pub proof fn lemma_index_in_range(x: int, y: int, z: int)
    requires
        valid_coords(x, y, z),
    ensures
        0 <= index_spec(x, y, z) < CHUNK_VOL,
{
}

/// Local x coordinate of a linear position.
pub open spec fn x_of(n: int) -> int {
    n % 8
}

/// Local y coordinate of a linear position.
pub open spec fn y_of(n: int) -> int {
    (n / 8) % 256
}

/// Local z coordinate of a linear position.
pub open spec fn z_of(n: int) -> int {
    n / 2048
}

/// Linear indexing loses no information: the coordinates come back out.
pub proof fn lemma_coords_of_index(x: int, y: int, z: int)
    requires
        valid_coords(x, y, z),
    ensures
        x_of(index_spec(x, y, z)) == x,
        y_of(index_spec(x, y, z)) == y,
        z_of(index_spec(x, y, z)) == z,
{
    let n = index_spec(x, y, z);
    assert(n == 8 * (y + 256 * z) + x);
    assert(n % 8 == x && n / 8 == y + 256 * z) by {
        lemma_fundamental_div_mod_converse(n, 8, y + 256 * z, x);
    }
    assert((y + 256 * z) % 256 == y && (y + 256 * z) / 256 == z) by {
        lemma_fundamental_div_mod_converse(y + 256 * z, 256, z, y);
    }
    assert(n == 2048 * z + (x + 8 * y));
    assert(n / 2048 == z) by {
        lemma_fundamental_div_mod_converse(n, 2048, z, x + 8 * y);
    }
}

/// Every linear position in `[0, CHUNK_VOL)` is the index of exactly one
/// valid coordinate triple: together with injectivity, the image of `index`
/// over the valid coordinates is exactly `[0, CHUNK_VOL)`.
pub proof fn lemma_index_inverse(n: int)
    requires
        0 <= n < CHUNK_VOL,
    ensures
        valid_coords(x_of(n), y_of(n), z_of(n)),
        index_spec(x_of(n), y_of(n), z_of(n)) == n,
{
    lemma_fundamental_div_mod(n, 2048);
    lemma_fundamental_div_mod(n, 8);
    lemma_fundamental_div_mod(n / 8, 256);
    lemma_mod_bound(n, 2048);
    lemma_mod_bound(n, 8);
    lemma_mod_bound(n / 8, 256);
    assert(n / 2048 == (n / 8) / 256) by {
        lemma_div_denominator(n, 8, 256);
    }
}

/// Two full-size grids that agree at the index of every valid coordinate
/// triple are the same grid.
pub proof fn lemma_grids_equal(g1: Seq<BlockType>, g2: Seq<BlockType>)
    requires
        g1.len() == CHUNK_VOL,
        g2.len() == CHUNK_VOL,
        forall|x: int, y: int, z: int|
            valid_coords(x, y, z) ==> g1[#[trigger] index_spec(x, y, z)] == g2[index_spec(x, y, z)],
    ensures
        g1 == g2,
{
    assert forall|n: int| 0 <= n < CHUNK_VOL implies g1[n] == g2[n] by {
        lemma_index_inverse(n);
        assert(g1[index_spec(x_of(n), y_of(n), z_of(n))] == g2[index_spec(x_of(n), y_of(n), z_of(n))]);
    }
    assert(g1 =~= g2);
}

/// The dense block array of a single chunk.
pub struct BlockGrid {
    blocks: Vec<BlockType>,
}

impl BlockGrid {
    /// The grid as the mathematical sequence of its cells, in linear-index
    /// order.
    pub closed spec fn view(&self) -> Seq<BlockType> {
        self.blocks@
    }

    /// A grid is well formed when it holds exactly one cell per local
    /// coordinate.
    pub open spec fn wf(&self) -> bool {
        self@.len() == CHUNK_VOL
    }

    /// A fresh chunk's grid: every cell Air.
    pub fn new() -> (r: BlockGrid)
        ensures
            r.wf(),
            forall|n: int| 0 <= n < CHUNK_VOL ==> r@[n] == BlockType::Air,
    {
        let mut blocks: Vec<BlockType> = Vec::new();
        let mut n: usize = 0;
        while n < CHUNK_VOL
            invariant
                n <= CHUNK_VOL,
                blocks@.len() == n,
                forall|i: int| 0 <= i < n ==> blocks@[i] == BlockType::Air,
            decreases CHUNK_VOL - n,
        {
            blocks.push(BlockType::Air);
            n = n + 1;
        }
        BlockGrid { blocks }
    }

    /// Linear index of a local coordinate; callers must have bounds-checked.
    pub fn index(x: usize, y: usize, z: usize) -> (r: usize)
        requires
            valid_coords(x as int, y as int, z as int),
        ensures
            r == index_spec(x as int, y as int, z as int),
            r < CHUNK_VOL,
    {
        x + y * CHUNK_WIDTH + z * CHUNK_WIDTH * CHUNK_HEIGHT
    }

    /// Read the block at valid local coordinates.
    pub fn get(&self, x: usize, y: usize, z: usize) -> (r: BlockType)
        requires
            self.wf(),
            valid_coords(x as int, y as int, z as int),
        ensures
            r == self@[index_spec(x as int, y as int, z as int)],
    {
        let i = Self::index(x, y, z);
        self.blocks[i]
    }

    /// Read the cell at a linear position, for whole-grid sweeps.
    pub fn get_raw(&self, n: usize) -> (r: BlockType)
        requires
            self.wf(),
            n < CHUNK_VOL,
        ensures
            r == self@[n as int],
    {
        self.blocks[n]
    }

    /// Write the cell at a linear position, for whole-grid sweeps.
    pub fn set_raw(&mut self, n: usize, block: BlockType)
        requires
            old(self).wf(),
            n < CHUNK_VOL,
        ensures
            final(self).wf(),
            final(self)@ == old(self)@.update(n as int, block),
    {
        self.blocks.set(n, block);
    }

    /// Write the block at valid local coordinates; no other cell changes.
    pub fn set(&mut self, x: usize, y: usize, z: usize, block: BlockType)
        requires
            old(self).wf(),
            valid_coords(x as int, y as int, z as int),
        ensures
            final(self).wf(),
            final(self)@ == old(self)@.update(
                index_spec(x as int, y as int, z as int),
                block,
            ),
    {
        let i = Self::index(x, y, z);
        self.blocks.set(i, block);
    }
}

} // verus!
