//! Stamping of multi-block structures whose footprint may cross a chunk
//! boundary: a cactus column and a tree whose leaf crown can spill into the
//! four orthogonal neighbor chunks' reserved overflow buffers.
use vstd::prelude::*;
use crate::{CHUNK_HEIGHT, CHUNK_VOL, CHUNK_WIDTH};
use crate::grid::{
    lemma_coords_of_index, lemma_grids_equal, lemma_index_in_range, lemma_index_injective,
    index_spec, valid_coords, x_of, y_of, z_of, BlockGrid, BlockType,
};
use crate::world::WorldMap;

verus! {

/// A cell of the cactus column above `(x, z)`: levels `y+1` through
/// `y+height-1`, clipped below the top layer of the chunk.
pub open spec fn cactus_cell(x: int, y: int, z: int, height: int, a: int, b: int, c: int) -> bool {
    a == x && c == z && y + 1 <= b <= y + height - 1 && b < CHUNK_HEIGHT - 1
}

/// The single Leaves cap on top of a tree's trunk.
pub open spec fn tree_cap_cell(x: int, y: int, z: int, height: int, a: int, b: int, c: int) -> bool {
    a == x && c == z && b == y + height
}

/// A WoodLog cell of the trunk column.
pub open spec fn tree_trunk_cell(x: int, y: int, z: int, height: int, a: int, b: int, c: int) -> bool {
    a == x && c == z && y + 1 <= b <= y + height - 1
}

/// Leaf rings exist at heights `y+3` through `y+height-1`: ring level `i`
/// (from 1) sits at height `y+i+2`.
pub open spec fn ring_level(y: int, height: int, b: int) -> bool {
    y + 3 <= b <= y + height - 1
}

/// The widest ring radius at height `b`: level `i = b-y-2` reaches out to
/// `height-i-2` cells from the trunk.
pub open spec fn ring_reach(y: int, height: int, b: int) -> int {
    height - (b - y - 2) - 2
}

/// An in-chunk leaf cell on the +x side of the trunk.
pub open spec fn ring_pos_x(x: int, y: int, z: int, height: int, a: int, b: int, c: int) -> bool {
    c == z && ring_level(y, height, b) && x < a && a - x <= ring_reach(y, height, b)
}

/// An in-chunk leaf cell on the -x side of the trunk.
pub open spec fn ring_neg_x(x: int, y: int, z: int, height: int, a: int, b: int, c: int) -> bool {
    c == z && ring_level(y, height, b) && a < x && x - a <= ring_reach(y, height, b)
}

/// An in-chunk leaf cell on the +z side of the trunk.
pub open spec fn ring_pos_z(x: int, y: int, z: int, height: int, a: int, b: int, c: int) -> bool {
    a == x && ring_level(y, height, b) && z < c && c - z <= ring_reach(y, height, b)
}

/// An in-chunk leaf cell on the -z side of the trunk.
pub open spec fn ring_neg_z(x: int, y: int, z: int, height: int, a: int, b: int, c: int) -> bool {
    a == x && ring_level(y, height, b) && c < z && z - c <= ring_reach(y, height, b)
}

/// What a whole chunk looks like after a tree is stamped at `(x, y, z)`:
/// the cap, then the trunk, then any in-chunk leaf ring cell; every other
/// cell keeps its base value.
pub open spec fn tree_cell(
    base: Seq<BlockType>,
    x: int,
    y: int,
    z: int,
    height: int,
    a: int,
    b: int,
    c: int,
) -> BlockType {
    if tree_cap_cell(x, y, z, height, a, b, c) {
        BlockType::Leaves
    } else if tree_trunk_cell(x, y, z, height, a, b, c) {
        BlockType::WoodLog
    } else if ring_pos_x(x, y, z, height, a, b, c) || ring_neg_x(x, y, z, height, a, b, c)
        || ring_pos_z(x, y, z, height, a, b, c) || ring_neg_z(x, y, z, height, a, b, c) {
        BlockType::Leaves
    } else {
        base[index_spec(a, b, c)]
    }
}

/// A leaf cell spilling into the +x neighbor, in that neighbor's own local
/// frame: radius `j = a + CHUNK_WIDTH - x`.
pub open spec fn ov_pos_x(x: int, y: int, z: int, height: int, a: int, b: int, c: int) -> bool {
    c == z && ring_level(y, height, b) && a + CHUNK_WIDTH - x <= ring_reach(y, height, b)
}

/// A leaf cell spilling into the -x neighbor: radius `j = x + CHUNK_WIDTH - a`.
pub open spec fn ov_neg_x(x: int, y: int, z: int, height: int, a: int, b: int, c: int) -> bool {
    c == z && ring_level(y, height, b) && x + CHUNK_WIDTH - a <= ring_reach(y, height, b)
}

/// A leaf cell spilling into the +z neighbor: radius `j = c + CHUNK_WIDTH - z`.
pub open spec fn ov_pos_z(x: int, y: int, z: int, height: int, a: int, b: int, c: int) -> bool {
    a == x && ring_level(y, height, b) && c + CHUNK_WIDTH - z <= ring_reach(y, height, b)
}

/// A leaf cell spilling into the -z neighbor: radius `j = z + CHUNK_WIDTH - c`.
pub open spec fn ov_neg_z(x: int, y: int, z: int, height: int, a: int, b: int, c: int) -> bool {
    a == x && ring_level(y, height, b) && z + CHUNK_WIDTH - c <= ring_reach(y, height, b)
}

/// Whether some ring cell crosses the +x chunk edge: the widest ring (level
/// 1, radius `height-3`) decides.
pub open spec fn need_pos_x(x: int, height: int) -> bool {
    height >= 4 && x + height - 3 >= CHUNK_WIDTH
}

/// Whether some ring cell crosses the -x chunk edge.
pub open spec fn need_neg_x(x: int, height: int) -> bool {
    height >= 4 && x < height - 3
}

/// Whether some ring cell crosses the +z chunk edge.
pub open spec fn need_pos_z(z: int, height: int) -> bool {
    height >= 4 && z + height - 3 >= CHUNK_WIDTH
}

/// Whether some ring cell crosses the -z chunk edge.
pub open spec fn need_neg_z(z: int, height: int) -> bool {
    height >= 4 && z < height - 3
}

/// A grid of nothing but Air, the starting point of a fresh overflow buffer.
pub open spec fn air_grid() -> Seq<BlockType> {
    Seq::new(CHUNK_VOL as nat, |n: int| BlockType::Air)
}

/// The overflow buffer a neighbor ends up with: the tree's spilled leaf
/// cells over whatever the buffer already held.
pub open spec fn stamped_ov(
    base: Seq<BlockType>,
    hit_px: bool,
    hit_nx: bool,
    hit_pz: bool,
    hit_nz: bool,
    x: int,
    y: int,
    z: int,
    height: int,
) -> Seq<BlockType> {
    Seq::new(CHUNK_VOL as nat, |n: int|
        if (hit_px && ov_pos_x(x, y, z, height, x_of(n), y_of(n), z_of(n)))
            || (hit_nx && ov_neg_x(x, y, z, height, x_of(n), y_of(n), z_of(n)))
            || (hit_pz && ov_pos_z(x, y, z, height, x_of(n), y_of(n), z_of(n)))
            || (hit_nz && ov_neg_z(x, y, z, height, x_of(n), y_of(n), z_of(n))) {
            BlockType::Leaves
        } else {
            base[n]
        })
}

/// The buffer currently reserved for a neighbor, or pure Air if none is.
pub open spec fn base_or_air(r: Map<(i32, i32), Seq<BlockType>>, k: (i32, i32)) -> Seq<BlockType> {
    if r.contains_key(k) {
        r[k]
    } else {
        air_grid()
    }
}

/// Key of the +x neighbor chunk.
pub open spec fn pos_x_key(cp: (i32, i32)) -> (i32, i32) {
    ((cp.0 + 1) as i32, cp.1)
}

/// Key of the -x neighbor chunk.
pub open spec fn neg_x_key(cp: (i32, i32)) -> (i32, i32) {
    ((cp.0 - 1) as i32, cp.1)
}

/// Key of the +z neighbor chunk.
pub open spec fn pos_z_key(cp: (i32, i32)) -> (i32, i32) {
    (cp.0, (cp.1 + 1) as i32)
}

/// Key of the -z neighbor chunk.
pub open spec fn neg_z_key(cp: (i32, i32)) -> (i32, i32) {
    (cp.0, (cp.1 - 1) as i32)
}

/// The reserved-overflow map after a tree rooted in `cp` is stamped: each
/// neighbor an overflowing ring cell actually reaches gains (or extends) a
/// buffer; nothing else moves.
pub open spec fn tree_reserved_after(
    r: Map<(i32, i32), Seq<BlockType>>,
    cp: (i32, i32),
    x: int,
    y: int,
    z: int,
    height: int,
) -> Map<(i32, i32), Seq<BlockType>> {
    let r1 = if need_pos_x(x, height) {
        r.insert(pos_x_key(cp), stamped_ov(base_or_air(r, pos_x_key(cp)), true, false, false, false, x, y, z, height))
    } else {
        r
    };
    let r2 = if need_neg_x(x, height) {
        r1.insert(neg_x_key(cp), stamped_ov(base_or_air(r, neg_x_key(cp)), false, true, false, false, x, y, z, height))
    } else {
        r1
    };
    let r3 = if need_pos_z(z, height) {
        r2.insert(pos_z_key(cp), stamped_ov(base_or_air(r, pos_z_key(cp)), false, false, true, false, x, y, z, height))
    } else {
        r2
    };
    if need_neg_z(z, height) {
        r3.insert(neg_z_key(cp), stamped_ov(base_or_air(r, neg_z_key(cp)), false, false, false, true, x, y, z, height))
    } else {
        r3
    }
}

/// A tree whose trunk stands at least `height - 3` cells (the widest ring
/// radius) from every chunk edge spills nothing: the reserved-overflow map
/// is left exactly as it was, no neighbor touched.
pub proof fn lemma_tree_interior_stays_local(
    r: Map<(i32, i32), Seq<BlockType>>,
    cp: (i32, i32),
    x: int,
    y: int,
    z: int,
    height: int,
)
    requires
        height - 3 <= x,
        x + height - 3 < CHUNK_WIDTH,
        height - 3 <= z,
        z + height - 3 < CHUNK_WIDTH,
    ensures
        tree_reserved_after(r, cp, x, y, z, height) == r,
{
}

/// A tree of height 5 in the rightmost column (`x = CHUNK_WIDTH - 1`)
/// spills into the +x neighbor: the neighbor's buffer exists afterwards and
/// holds Leaves at the wrapped coordinate `(x + j) - CHUNK_WIDTH` (radius
/// `j = 1`, the first ring level) in the neighbor's own frame.
pub proof fn lemma_tree_at_edge_spills(
    r: Map<(i32, i32), Seq<BlockType>>,
    cp: (i32, i32),
    y: int,
    z: int,
)
    requires
        0 <= y,
        y + 5 < CHUNK_HEIGHT,
        0 <= z < CHUNK_WIDTH,
        -2147483648 < (cp.0 as int),
        (cp.0 as int) < 2147483647,
        -2147483648 < (cp.1 as int),
        (cp.1 as int) < 2147483647,
    ensures
        tree_reserved_after(r, cp, CHUNK_WIDTH - 1, y, z, 5).contains_key(pos_x_key(cp)),
        tree_reserved_after(r, cp, CHUNK_WIDTH - 1, y, z, 5)[pos_x_key(cp)][index_spec(
            0,
            y + 3,
            z,
        )] == BlockType::Leaves,
{
    let x = CHUNK_WIDTH - 1;
    let kpx = pos_x_key(cp);
    assert(need_pos_x(x as int, 5));
    assert(kpx != neg_x_key(cp) && kpx != pos_z_key(cp) && kpx != neg_z_key(cp));
    let t = tree_reserved_after(r, cp, x as int, y, z, 5);
    assert(t.contains_key(kpx));
    assert(t[kpx] == stamped_ov(base_or_air(r, kpx), true, false, false, false, x as int, y, z, 5));
    lemma_index_in_range(0, y + 3, z);
    lemma_coords_of_index(0, y + 3, z);
    let n = index_spec(0, y + 3, z);
    assert(ov_pos_x(x as int, y, z, 5, x_of(n), y_of(n), z_of(n)));
}

/// Write a vertical column of Cactus above `(x, z)`, from `y+1` up to
/// `y+height-1`, clipped below the chunk's top layer.
pub fn add_cactus(height: usize, x: usize, y: usize, z: usize, blocks: &mut BlockGrid)
    requires
        old(blocks).wf(),
        x < CHUNK_WIDTH,
        y < CHUNK_HEIGHT,
        z < CHUNK_WIDTH,
    ensures
        final(blocks).wf(),
        forall|a: int, b: int, c: int| valid_coords(a, b, c)
            ==> final(blocks)@[#[trigger] index_spec(a, b, c)]
                == if cactus_cell(x as int, y as int, z as int, height as int, a, b, c) {
                    BlockType::Cactus
                } else {
                    old(blocks)@[index_spec(a, b, c)]
                },
{
    let ghost base0 = blocks@;
    let mut i: usize = 1;
    while i < height
        invariant
            blocks.wf(),
            1 <= i,
            i <= height || i == 1,
            x < CHUNK_WIDTH,
            y < CHUNK_HEIGHT,
            z < CHUNK_WIDTH,
            forall|a: int, b: int, c: int| valid_coords(a, b, c)
                ==> blocks@[#[trigger] index_spec(a, b, c)]
                    == if cactus_cell(x as int, y as int, z as int, height as int, a, b, c)
                        && b <= y + i - 1 {
                        BlockType::Cactus
                    } else {
                        base0[index_spec(a, b, c)]
                    },
        decreases height - i,
    {
        if i < 255 - y {
            blocks.set(x, y + i, z, BlockType::Cactus);
            proof {
                assert forall|a: int, b: int, c: int| valid_coords(a, b, c)
                    implies blocks@[#[trigger] index_spec(a, b, c)]
                        == if cactus_cell(x as int, y as int, z as int, height as int, a, b, c)
                            && b <= y + i {
                            BlockType::Cactus
                        } else {
                            base0[index_spec(a, b, c)]
                        } by {
                    lemma_index_in_range(a, b, c);
                    lemma_index_in_range(x as int, (y + i) as int, z as int);
                    if index_spec(a, b, c) == index_spec(x as int, (y + i) as int, z as int) {
                        lemma_index_injective(a, b, c, x as int, (y + i) as int, z as int);
                    }
                }
            }
        }
        i = i + 1;
    }
}

/// One direction of a tree's leaf rings. For each ring level and radius, a
/// cell whose x coordinate stays inside the chunk is written in place; one
/// that crosses the +x edge is redirected into the neighbor's buffer, at the
/// out-of-range coordinate wrapped back into local range.
fn stamp_leaves_pos_x(
    blocks: &mut BlockGrid,
    overflow: &mut BlockGrid,
    height: usize,
    x: usize,
    y: usize,
    z: usize,
) -> (need: bool)
    requires
        old(blocks).wf(),
        old(overflow).wf(),
        x < CHUNK_WIDTH,
        z < CHUNK_WIDTH,
        y + height < CHUNK_HEIGHT,
        height <= 11,
    ensures
        final(blocks).wf(),
        final(overflow).wf(),
        forall|a: int, b: int, c: int| valid_coords(a, b, c)
            ==> final(blocks)@[#[trigger] index_spec(a, b, c)]
                == if ring_pos_x(x as int, y as int, z as int, height as int, a, b, c) {
                    BlockType::Leaves
                } else {
                    old(blocks)@[index_spec(a, b, c)]
                },
        forall|a: int, b: int, c: int| valid_coords(a, b, c)
            ==> final(overflow)@[#[trigger] index_spec(a, b, c)]
                == if ov_pos_x(x as int, y as int, z as int, height as int, a, b, c) {
                    BlockType::Leaves
                } else {
                    old(overflow)@[index_spec(a, b, c)]
                },
        need == need_pos_x(x as int, height as int),
{
    let ghost blocks0 = blocks@;
    let ghost ov0 = overflow@;
    let mut need = false;
    let mut i: usize = 1;
    while i < height
        invariant
            blocks.wf(),
            overflow.wf(),
            1 <= i,
            i <= height || i == 1,
            x < CHUNK_WIDTH,
            z < CHUNK_WIDTH,
            y + height < CHUNK_HEIGHT,
            height <= 11,
            forall|a: int, b: int, c: int| valid_coords(a, b, c)
                ==> blocks@[#[trigger] index_spec(a, b, c)]
                    == if ring_pos_x(x as int, y as int, z as int, height as int, a, b, c)
                        && b - y - 2 < i {
                        BlockType::Leaves
                    } else {
                        blocks0[index_spec(a, b, c)]
                    },
            forall|a: int, b: int, c: int| valid_coords(a, b, c)
                ==> overflow@[#[trigger] index_spec(a, b, c)]
                    == if ov_pos_x(x as int, y as int, z as int, height as int, a, b, c)
                        && b - y - 2 < i {
                        BlockType::Leaves
                    } else {
                        ov0[index_spec(a, b, c)]
                    },
            need == (i >= 2 && need_pos_x(x as int, height as int)),
        decreases height - i,
    {
        let mut j: usize = 1;
        while j < height - i - 1
            invariant
                blocks.wf(),
                overflow.wf(),
                1 <= i,
                i < height,
                1 <= j,
                j <= height - i - 1 || j == 1,
                x < CHUNK_WIDTH,
                z < CHUNK_WIDTH,
                y + height < CHUNK_HEIGHT,
                height <= 11,
                forall|a: int, b: int, c: int| valid_coords(a, b, c)
                    ==> blocks@[#[trigger] index_spec(a, b, c)]
                        == if ring_pos_x(x as int, y as int, z as int, height as int, a, b, c)
                            && (b - y - 2 < i || (b - y - 2 == i && a - x < j)) {
                            BlockType::Leaves
                        } else {
                            blocks0[index_spec(a, b, c)]
                        },
                forall|a: int, b: int, c: int| valid_coords(a, b, c)
                    ==> overflow@[#[trigger] index_spec(a, b, c)]
                        == if ov_pos_x(x as int, y as int, z as int, height as int, a, b, c)
                            && (b - y - 2 < i || (b - y - 2 == i && a + 8 - x < j)) {
                            BlockType::Leaves
                        } else {
                            ov0[index_spec(a, b, c)]
                        },
                need == ((i >= 2 && need_pos_x(x as int, height as int))
                    || (j >= 2 && x + j - 1 >= 8)),
            decreases height - i - 1 - j,
        {
            let b_lvl = y + i + 2;
            if x + j >= 8 {
                overflow.set(x + j - 8, b_lvl, z, BlockType::Leaves);
                need = true;
                proof {
                    let aa = (x + j - 8) as int;
                    let bb = b_lvl as int;
                    assert forall|a: int, b: int, c: int| valid_coords(a, b, c)
                        implies overflow@[#[trigger] index_spec(a, b, c)]
                            == if ov_pos_x(x as int, y as int, z as int, height as int, a, b, c)
                                && (b - y - 2 < i || (b - y - 2 == i && a + 8 - x < j + 1)) {
                                BlockType::Leaves
                            } else {
                                ov0[index_spec(a, b, c)]
                            } by {
                        lemma_index_in_range(a, b, c);
                        lemma_index_in_range(aa, bb, z as int);
                        if index_spec(a, b, c) == index_spec(aa, bb, z as int) {
                            lemma_index_injective(a, b, c, aa, bb, z as int);
                        }
                    }
                }
            } else {
                blocks.set(x + j, b_lvl, z, BlockType::Leaves);
                proof {
                    let aa = (x + j) as int;
                    let bb = b_lvl as int;
                    assert forall|a: int, b: int, c: int| valid_coords(a, b, c)
                        implies blocks@[#[trigger] index_spec(a, b, c)]
                            == if ring_pos_x(x as int, y as int, z as int, height as int, a, b, c)
                                && (b - y - 2 < i || (b - y - 2 == i && a - x < j + 1)) {
                                BlockType::Leaves
                            } else {
                                blocks0[index_spec(a, b, c)]
                            } by {
                        lemma_index_in_range(a, b, c);
                        lemma_index_in_range(aa, bb, z as int);
                        if index_spec(a, b, c) == index_spec(aa, bb, z as int) {
                            lemma_index_injective(a, b, c, aa, bb, z as int);
                        }
                    }
                }
            }
            j = j + 1;
        }
        i = i + 1;
    }
    need
}

/// The -x counterpart of `stamp_leaves_pos_x`: cells left of the chunk wrap
/// into the -x neighbor's buffer.
fn stamp_leaves_neg_x(
    blocks: &mut BlockGrid,
    overflow: &mut BlockGrid,
    height: usize,
    x: usize,
    y: usize,
    z: usize,
) -> (need: bool)
    requires
        old(blocks).wf(),
        old(overflow).wf(),
        x < CHUNK_WIDTH,
        z < CHUNK_WIDTH,
        y + height < CHUNK_HEIGHT,
        height <= 11,
    ensures
        final(blocks).wf(),
        final(overflow).wf(),
        forall|a: int, b: int, c: int| valid_coords(a, b, c)
            ==> final(blocks)@[#[trigger] index_spec(a, b, c)]
                == if ring_neg_x(x as int, y as int, z as int, height as int, a, b, c) {
                    BlockType::Leaves
                } else {
                    old(blocks)@[index_spec(a, b, c)]
                },
        forall|a: int, b: int, c: int| valid_coords(a, b, c)
            ==> final(overflow)@[#[trigger] index_spec(a, b, c)]
                == if ov_neg_x(x as int, y as int, z as int, height as int, a, b, c) {
                    BlockType::Leaves
                } else {
                    old(overflow)@[index_spec(a, b, c)]
                },
        need == need_neg_x(x as int, height as int),
{
    let ghost blocks0 = blocks@;
    let ghost ov0 = overflow@;
    let mut need = false;
    let mut i: usize = 1;
    while i < height
        invariant
            blocks.wf(),
            overflow.wf(),
            1 <= i,
            i <= height || i == 1,
            x < CHUNK_WIDTH,
            z < CHUNK_WIDTH,
            y + height < CHUNK_HEIGHT,
            height <= 11,
            forall|a: int, b: int, c: int| valid_coords(a, b, c)
                ==> blocks@[#[trigger] index_spec(a, b, c)]
                    == if ring_neg_x(x as int, y as int, z as int, height as int, a, b, c)
                        && b - y - 2 < i {
                        BlockType::Leaves
                    } else {
                        blocks0[index_spec(a, b, c)]
                    },
            forall|a: int, b: int, c: int| valid_coords(a, b, c)
                ==> overflow@[#[trigger] index_spec(a, b, c)]
                    == if ov_neg_x(x as int, y as int, z as int, height as int, a, b, c)
                        && b - y - 2 < i {
                        BlockType::Leaves
                    } else {
                        ov0[index_spec(a, b, c)]
                    },
            need == (i >= 2 && need_neg_x(x as int, height as int)),
        decreases height - i,
    {
        let mut j: usize = 1;
        while j < height - i - 1
            invariant
                blocks.wf(),
                overflow.wf(),
                1 <= i,
                i < height,
                1 <= j,
                j <= height - i - 1 || j == 1,
                x < CHUNK_WIDTH,
                z < CHUNK_WIDTH,
                y + height < CHUNK_HEIGHT,
                height <= 11,
                forall|a: int, b: int, c: int| valid_coords(a, b, c)
                    ==> blocks@[#[trigger] index_spec(a, b, c)]
                        == if ring_neg_x(x as int, y as int, z as int, height as int, a, b, c)
                            && (b - y - 2 < i || (b - y - 2 == i && x - a < j)) {
                            BlockType::Leaves
                        } else {
                            blocks0[index_spec(a, b, c)]
                        },
                forall|a: int, b: int, c: int| valid_coords(a, b, c)
                    ==> overflow@[#[trigger] index_spec(a, b, c)]
                        == if ov_neg_x(x as int, y as int, z as int, height as int, a, b, c)
                            && (b - y - 2 < i || (b - y - 2 == i && x + 8 - a < j)) {
                            BlockType::Leaves
                        } else {
                            ov0[index_spec(a, b, c)]
                        },
                need == ((i >= 2 && need_neg_x(x as int, height as int))
                    || (j >= 2 && x <= j - 2)),
            decreases height - i - 1 - j,
        {
            let b_lvl = y + i + 2;
            if j > x {
                overflow.set(x + 8 - j, b_lvl, z, BlockType::Leaves);
                need = true;
                proof {
                    let aa = (x + 8 - j) as int;
                    let bb = b_lvl as int;
                    assert forall|a: int, b: int, c: int| valid_coords(a, b, c)
                        implies overflow@[#[trigger] index_spec(a, b, c)]
                            == if ov_neg_x(x as int, y as int, z as int, height as int, a, b, c)
                                && (b - y - 2 < i || (b - y - 2 == i && x + 8 - a < j + 1)) {
                                BlockType::Leaves
                            } else {
                                ov0[index_spec(a, b, c)]
                            } by {
                        lemma_index_in_range(a, b, c);
                        lemma_index_in_range(aa, bb, z as int);
                        if index_spec(a, b, c) == index_spec(aa, bb, z as int) {
                            lemma_index_injective(a, b, c, aa, bb, z as int);
                        }
                    }
                }
            } else {
                blocks.set(x - j, b_lvl, z, BlockType::Leaves);
                proof {
                    let aa = (x - j) as int;
                    let bb = b_lvl as int;
                    assert forall|a: int, b: int, c: int| valid_coords(a, b, c)
                        implies blocks@[#[trigger] index_spec(a, b, c)]
                            == if ring_neg_x(x as int, y as int, z as int, height as int, a, b, c)
                                && (b - y - 2 < i || (b - y - 2 == i && x - a < j + 1)) {
                                BlockType::Leaves
                            } else {
                                blocks0[index_spec(a, b, c)]
                            } by {
                        lemma_index_in_range(a, b, c);
                        lemma_index_in_range(aa, bb, z as int);
                        if index_spec(a, b, c) == index_spec(aa, bb, z as int) {
                            lemma_index_injective(a, b, c, aa, bb, z as int);
                        }
                    }
                }
            }
            j = j + 1;
        }
        i = i + 1;
    }
    need
}

/// The +z counterpart of `stamp_leaves_pos_x`.
fn stamp_leaves_pos_z(
    blocks: &mut BlockGrid,
    overflow: &mut BlockGrid,
    height: usize,
    x: usize,
    y: usize,
    z: usize,
) -> (need: bool)
    requires
        old(blocks).wf(),
        old(overflow).wf(),
        x < CHUNK_WIDTH,
        z < CHUNK_WIDTH,
        y + height < CHUNK_HEIGHT,
        height <= 11,
    ensures
        final(blocks).wf(),
        final(overflow).wf(),
        forall|a: int, b: int, c: int| valid_coords(a, b, c)
            ==> final(blocks)@[#[trigger] index_spec(a, b, c)]
                == if ring_pos_z(x as int, y as int, z as int, height as int, a, b, c) {
                    BlockType::Leaves
                } else {
                    old(blocks)@[index_spec(a, b, c)]
                },
        forall|a: int, b: int, c: int| valid_coords(a, b, c)
            ==> final(overflow)@[#[trigger] index_spec(a, b, c)]
                == if ov_pos_z(x as int, y as int, z as int, height as int, a, b, c) {
                    BlockType::Leaves
                } else {
                    old(overflow)@[index_spec(a, b, c)]
                },
        need == need_pos_z(z as int, height as int),
{
    let ghost blocks0 = blocks@;
    let ghost ov0 = overflow@;
    let mut need = false;
    let mut i: usize = 1;
    while i < height
        invariant
            blocks.wf(),
            overflow.wf(),
            1 <= i,
            i <= height || i == 1,
            x < CHUNK_WIDTH,
            z < CHUNK_WIDTH,
            y + height < CHUNK_HEIGHT,
            height <= 11,
            forall|a: int, b: int, c: int| valid_coords(a, b, c)
                ==> blocks@[#[trigger] index_spec(a, b, c)]
                    == if ring_pos_z(x as int, y as int, z as int, height as int, a, b, c)
                        && b - y - 2 < i {
                        BlockType::Leaves
                    } else {
                        blocks0[index_spec(a, b, c)]
                    },
            forall|a: int, b: int, c: int| valid_coords(a, b, c)
                ==> overflow@[#[trigger] index_spec(a, b, c)]
                    == if ov_pos_z(x as int, y as int, z as int, height as int, a, b, c)
                        && b - y - 2 < i {
                        BlockType::Leaves
                    } else {
                        ov0[index_spec(a, b, c)]
                    },
            need == (i >= 2 && need_pos_z(z as int, height as int)),
        decreases height - i,
    {
        let mut j: usize = 1;
        while j < height - i - 1
            invariant
                blocks.wf(),
                overflow.wf(),
                1 <= i,
                i < height,
                1 <= j,
                j <= height - i - 1 || j == 1,
                x < CHUNK_WIDTH,
                z < CHUNK_WIDTH,
                y + height < CHUNK_HEIGHT,
                height <= 11,
                forall|a: int, b: int, c: int| valid_coords(a, b, c)
                    ==> blocks@[#[trigger] index_spec(a, b, c)]
                        == if ring_pos_z(x as int, y as int, z as int, height as int, a, b, c)
                            && (b - y - 2 < i || (b - y - 2 == i && c - z < j)) {
                            BlockType::Leaves
                        } else {
                            blocks0[index_spec(a, b, c)]
                        },
                forall|a: int, b: int, c: int| valid_coords(a, b, c)
                    ==> overflow@[#[trigger] index_spec(a, b, c)]
                        == if ov_pos_z(x as int, y as int, z as int, height as int, a, b, c)
                            && (b - y - 2 < i || (b - y - 2 == i && c + 8 - z < j)) {
                            BlockType::Leaves
                        } else {
                            ov0[index_spec(a, b, c)]
                        },
                need == ((i >= 2 && need_pos_z(z as int, height as int))
                    || (j >= 2 && z + j - 1 >= 8)),
            decreases height - i - 1 - j,
        {
            let b_lvl = y + i + 2;
            if z + j >= 8 {
                overflow.set(x, b_lvl, z + j - 8, BlockType::Leaves);
                need = true;
                proof {
                    let cc = (z + j - 8) as int;
                    let bb = b_lvl as int;
                    assert forall|a: int, b: int, c: int| valid_coords(a, b, c)
                        implies overflow@[#[trigger] index_spec(a, b, c)]
                            == if ov_pos_z(x as int, y as int, z as int, height as int, a, b, c)
                                && (b - y - 2 < i || (b - y - 2 == i && c + 8 - z < j + 1)) {
                                BlockType::Leaves
                            } else {
                                ov0[index_spec(a, b, c)]
                            } by {
                        lemma_index_in_range(a, b, c);
                        lemma_index_in_range(x as int, bb, cc);
                        if index_spec(a, b, c) == index_spec(x as int, bb, cc) {
                            lemma_index_injective(a, b, c, x as int, bb, cc);
                        }
                    }
                }
            } else {
                blocks.set(x, b_lvl, z + j, BlockType::Leaves);
                proof {
                    let cc = (z + j) as int;
                    let bb = b_lvl as int;
                    assert forall|a: int, b: int, c: int| valid_coords(a, b, c)
                        implies blocks@[#[trigger] index_spec(a, b, c)]
                            == if ring_pos_z(x as int, y as int, z as int, height as int, a, b, c)
                                && (b - y - 2 < i || (b - y - 2 == i && c - z < j + 1)) {
                                BlockType::Leaves
                            } else {
                                blocks0[index_spec(a, b, c)]
                            } by {
                        lemma_index_in_range(a, b, c);
                        lemma_index_in_range(x as int, bb, cc);
                        if index_spec(a, b, c) == index_spec(x as int, bb, cc) {
                            lemma_index_injective(a, b, c, x as int, bb, cc);
                        }
                    }
                }
            }
            j = j + 1;
        }
        i = i + 1;
    }
    need
}

/// The -z counterpart of `stamp_leaves_pos_x`.
fn stamp_leaves_neg_z(
    blocks: &mut BlockGrid,
    overflow: &mut BlockGrid,
    height: usize,
    x: usize,
    y: usize,
    z: usize,
) -> (need: bool)
    requires
        old(blocks).wf(),
        old(overflow).wf(),
        x < CHUNK_WIDTH,
        z < CHUNK_WIDTH,
        y + height < CHUNK_HEIGHT,
        height <= 11,
    ensures
        final(blocks).wf(),
        final(overflow).wf(),
        forall|a: int, b: int, c: int| valid_coords(a, b, c)
            ==> final(blocks)@[#[trigger] index_spec(a, b, c)]
                == if ring_neg_z(x as int, y as int, z as int, height as int, a, b, c) {
                    BlockType::Leaves
                } else {
                    old(blocks)@[index_spec(a, b, c)]
                },
        forall|a: int, b: int, c: int| valid_coords(a, b, c)
            ==> final(overflow)@[#[trigger] index_spec(a, b, c)]
                == if ov_neg_z(x as int, y as int, z as int, height as int, a, b, c) {
                    BlockType::Leaves
                } else {
                    old(overflow)@[index_spec(a, b, c)]
                },
        need == need_neg_z(z as int, height as int),
{
    let ghost blocks0 = blocks@;
    let ghost ov0 = overflow@;
    let mut need = false;
    let mut i: usize = 1;
    while i < height
        invariant
            blocks.wf(),
            overflow.wf(),
            1 <= i,
            i <= height || i == 1,
            x < CHUNK_WIDTH,
            z < CHUNK_WIDTH,
            y + height < CHUNK_HEIGHT,
            height <= 11,
            forall|a: int, b: int, c: int| valid_coords(a, b, c)
                ==> blocks@[#[trigger] index_spec(a, b, c)]
                    == if ring_neg_z(x as int, y as int, z as int, height as int, a, b, c)
                        && b - y - 2 < i {
                        BlockType::Leaves
                    } else {
                        blocks0[index_spec(a, b, c)]
                    },
            forall|a: int, b: int, c: int| valid_coords(a, b, c)
                ==> overflow@[#[trigger] index_spec(a, b, c)]
                    == if ov_neg_z(x as int, y as int, z as int, height as int, a, b, c)
                        && b - y - 2 < i {
                        BlockType::Leaves
                    } else {
                        ov0[index_spec(a, b, c)]
                    },
            need == (i >= 2 && need_neg_z(z as int, height as int)),
        decreases height - i,
    {
        let mut j: usize = 1;
        while j < height - i - 1
            invariant
                blocks.wf(),
                overflow.wf(),
                1 <= i,
                i < height,
                1 <= j,
                j <= height - i - 1 || j == 1,
                x < CHUNK_WIDTH,
                z < CHUNK_WIDTH,
                y + height < CHUNK_HEIGHT,
                height <= 11,
                forall|a: int, b: int, c: int| valid_coords(a, b, c)
                    ==> blocks@[#[trigger] index_spec(a, b, c)]
                        == if ring_neg_z(x as int, y as int, z as int, height as int, a, b, c)
                            && (b - y - 2 < i || (b - y - 2 == i && z - c < j)) {
                            BlockType::Leaves
                        } else {
                            blocks0[index_spec(a, b, c)]
                        },
                forall|a: int, b: int, c: int| valid_coords(a, b, c)
                    ==> overflow@[#[trigger] index_spec(a, b, c)]
                        == if ov_neg_z(x as int, y as int, z as int, height as int, a, b, c)
                            && (b - y - 2 < i || (b - y - 2 == i && z + 8 - c < j)) {
                            BlockType::Leaves
                        } else {
                            ov0[index_spec(a, b, c)]
                        },
                need == ((i >= 2 && need_neg_z(z as int, height as int))
                    || (j >= 2 && z <= j - 2)),
            decreases height - i - 1 - j,
        {
            let b_lvl = y + i + 2;
            if j > z {
                overflow.set(x, b_lvl, z + 8 - j, BlockType::Leaves);
                need = true;
                proof {
                    let cc = (z + 8 - j) as int;
                    let bb = b_lvl as int;
                    assert forall|a: int, b: int, c: int| valid_coords(a, b, c)
                        implies overflow@[#[trigger] index_spec(a, b, c)]
                            == if ov_neg_z(x as int, y as int, z as int, height as int, a, b, c)
                                && (b - y - 2 < i || (b - y - 2 == i && z + 8 - c < j + 1)) {
                                BlockType::Leaves
                            } else {
                                ov0[index_spec(a, b, c)]
                            } by {
                        lemma_index_in_range(a, b, c);
                        lemma_index_in_range(x as int, bb, cc);
                        if index_spec(a, b, c) == index_spec(x as int, bb, cc) {
                            lemma_index_injective(a, b, c, x as int, bb, cc);
                        }
                    }
                }
            } else {
                blocks.set(x, b_lvl, z - j, BlockType::Leaves);
                proof {
                    let cc = (z - j) as int;
                    let bb = b_lvl as int;
                    assert forall|a: int, b: int, c: int| valid_coords(a, b, c)
                        implies blocks@[#[trigger] index_spec(a, b, c)]
                            == if ring_neg_z(x as int, y as int, z as int, height as int, a, b, c)
                                && (b - y - 2 < i || (b - y - 2 == i && z - c < j + 1)) {
                                BlockType::Leaves
                            } else {
                                blocks0[index_spec(a, b, c)]
                            } by {
                        lemma_index_in_range(a, b, c);
                        lemma_index_in_range(x as int, bb, cc);
                        if index_spec(a, b, c) == index_spec(x as int, bb, cc) {
                            lemma_index_injective(a, b, c, x as int, bb, cc);
                        }
                    }
                }
            }
            j = j + 1;
        }
        i = i + 1;
    }
    need
}

/// Stamp a tree rooted at local `(x, y, z)`: a Leaves cap at `y+height`, a
/// WoodLog trunk from `y+1` to `y+height-1`, and leaf rings of
/// growing-then-shrinking radius around the trunk. Ring cells that fall
/// outside this chunk are redirected into the matching neighbor's
/// reserved-overflow buffer, and each neighbor actually touched is committed
/// back into the world map once all levels are processed.
#[verifier::rlimit(100)]
pub fn add_tree(
    height: usize,
    chunk_pos: (i32, i32),
    x: usize,
    y: usize,
    z: usize,
    world_map: &mut WorldMap,
    blocks: &mut BlockGrid,
)
    requires
        old(world_map).wf(),
        old(blocks).wf(),
        x < CHUNK_WIDTH,
        z < CHUNK_WIDTH,
        y + height < CHUNK_HEIGHT,
        height <= 11,
        -2147483648 < (chunk_pos.0 as int),
        (chunk_pos.0 as int) < 2147483647,
        -2147483648 < (chunk_pos.1 as int),
        (chunk_pos.1 as int) < 2147483647,
    ensures
        final(blocks).wf(),
        final(world_map).wf(),
        forall|a: int, b: int, c: int| valid_coords(a, b, c)
            ==> final(blocks)@[#[trigger] index_spec(a, b, c)]
                == tree_cell(old(blocks)@, x as int, y as int, z as int, height as int, a, b, c),
        final(world_map).chunks_view() == old(world_map).chunks_view(),
        final(world_map).reserved_view() == tree_reserved_after(
            old(world_map).reserved_view(),
            chunk_pos,
            x as int,
            y as int,
            z as int,
            height as int,
        ),
{
    let ghost blocks0 = blocks@;
    let ghost r0 = old(world_map).reserved_view();
    let ghost xi = x as int;
    let ghost yi = y as int;
    let ghost zi = z as int;
    let ghost hi = height as int;

    blocks.set(x, y + height, z, BlockType::Leaves);
    let mut i: usize = 1;
    while i < height
        invariant
            blocks.wf(),
            1 <= i,
            i <= height || i == 1,
            x < CHUNK_WIDTH,
            z < CHUNK_WIDTH,
            y + height < CHUNK_HEIGHT,
            forall|a: int, b: int, c: int| valid_coords(a, b, c)
                ==> blocks@[#[trigger] index_spec(a, b, c)]
                    == if tree_cap_cell(x as int, y as int, z as int, height as int, a, b, c) {
                        BlockType::Leaves
                    } else if tree_trunk_cell(x as int, y as int, z as int, height as int, a, b, c)
                        && b <= y + i - 1 {
                        BlockType::WoodLog
                    } else {
                        blocks0[index_spec(a, b, c)]
                    },
        decreases height - i,
    {
        blocks.set(x, y + i, z, BlockType::WoodLog);
        proof {
            assert forall|a: int, b: int, c: int| valid_coords(a, b, c)
                implies blocks@[#[trigger] index_spec(a, b, c)]
                    == if tree_cap_cell(x as int, y as int, z as int, height as int, a, b, c) {
                        BlockType::Leaves
                    } else if tree_trunk_cell(x as int, y as int, z as int, height as int, a, b, c)
                        && b <= y + i {
                        BlockType::WoodLog
                    } else {
                        blocks0[index_spec(a, b, c)]
                    } by {
                lemma_index_in_range(a, b, c);
                lemma_index_in_range(x as int, (y + i) as int, z as int);
                if index_spec(a, b, c) == index_spec(x as int, (y + i) as int, z as int) {
                    lemma_index_injective(a, b, c, x as int, (y + i) as int, z as int);
                }
            }
        }
        i = i + 1;
    }

    let k_px = (chunk_pos.0 + 1, chunk_pos.1);
    let k_nx = (chunk_pos.0 - 1, chunk_pos.1);
    let k_pz = (chunk_pos.0, chunk_pos.1 + 1);
    let k_nz = (chunk_pos.0, chunk_pos.1 - 1);

    let (mut ov_px, px_present) = match world_map.take_reserved(k_px) {
        Some(g) => (g, true),
        None => (BlockGrid::new(), false),
    };
    let (mut ov_nx, nx_present) = match world_map.take_reserved(k_nx) {
        Some(g) => (g, true),
        None => (BlockGrid::new(), false),
    };
    let (mut ov_pz, pz_present) = match world_map.take_reserved(k_pz) {
        Some(g) => (g, true),
        None => (BlockGrid::new(), false),
    };
    let (mut ov_nz, nz_present) = match world_map.take_reserved(k_nz) {
        Some(g) => (g, true),
        None => (BlockGrid::new(), false),
    };
    proof {
        if !px_present {
            assert(ov_px@ =~= base_or_air(r0, k_px));
        }
        if !nx_present {
            assert(ov_nx@ =~= base_or_air(r0, k_nx));
        }
        if !pz_present {
            assert(ov_pz@ =~= base_or_air(r0, k_pz));
        }
        if !nz_present {
            assert(ov_nz@ =~= base_or_air(r0, k_nz));
        }
    }

    let need_px = stamp_leaves_pos_x(blocks, &mut ov_px, height, x, y, z);
    let need_nx = stamp_leaves_neg_x(blocks, &mut ov_nx, height, x, y, z);
    let need_pz = stamp_leaves_pos_z(blocks, &mut ov_pz, height, x, y, z);
    let need_nz = stamp_leaves_neg_z(blocks, &mut ov_nz, height, x, y, z);

    proof {
        assert forall|a: int, b: int, c: int| valid_coords(a, b, c)
            implies blocks@[#[trigger] index_spec(a, b, c)]
                == tree_cell(blocks0, xi, yi, zi, hi, a, b, c) by {
            lemma_index_in_range(a, b, c);
        }
        assert forall|a: int, b: int, c: int| valid_coords(a, b, c)
            implies ov_px@[#[trigger] index_spec(a, b, c)]
                == stamped_ov(base_or_air(r0, k_px), true, false, false, false, xi, yi, zi, hi)[
                index_spec(a, b, c)] by {
            lemma_index_in_range(a, b, c);
            lemma_coords_of_index(a, b, c);
        }
        lemma_grids_equal(
            ov_px@,
            stamped_ov(base_or_air(r0, k_px), true, false, false, false, xi, yi, zi, hi),
        );
        assert forall|a: int, b: int, c: int| valid_coords(a, b, c)
            implies ov_nx@[#[trigger] index_spec(a, b, c)]
                == stamped_ov(base_or_air(r0, k_nx), false, true, false, false, xi, yi, zi, hi)[
                index_spec(a, b, c)] by {
            lemma_index_in_range(a, b, c);
            lemma_coords_of_index(a, b, c);
        }
        lemma_grids_equal(
            ov_nx@,
            stamped_ov(base_or_air(r0, k_nx), false, true, false, false, xi, yi, zi, hi),
        );
        assert forall|a: int, b: int, c: int| valid_coords(a, b, c)
            implies ov_pz@[#[trigger] index_spec(a, b, c)]
                == stamped_ov(base_or_air(r0, k_pz), false, false, true, false, xi, yi, zi, hi)[
                index_spec(a, b, c)] by {
            lemma_index_in_range(a, b, c);
            lemma_coords_of_index(a, b, c);
        }
        lemma_grids_equal(
            ov_pz@,
            stamped_ov(base_or_air(r0, k_pz), false, false, true, false, xi, yi, zi, hi),
        );
        assert forall|a: int, b: int, c: int| valid_coords(a, b, c)
            implies ov_nz@[#[trigger] index_spec(a, b, c)]
                == stamped_ov(base_or_air(r0, k_nz), false, false, false, true, xi, yi, zi, hi)[
                index_spec(a, b, c)] by {
            lemma_index_in_range(a, b, c);
            lemma_coords_of_index(a, b, c);
        }
        lemma_grids_equal(
            ov_nz@,
            stamped_ov(base_or_air(r0, k_nz), false, false, false, true, xi, yi, zi, hi),
        );
        if !need_px {
            assert forall|a: int, b: int, c: int| valid_coords(a, b, c)
                implies ov_px@[#[trigger] index_spec(a, b, c)]
                    == base_or_air(r0, k_px)[index_spec(a, b, c)] by {
                lemma_index_in_range(a, b, c);
            }
            lemma_grids_equal(ov_px@, base_or_air(r0, k_px));
        }
        if !need_nx {
            assert forall|a: int, b: int, c: int| valid_coords(a, b, c)
                implies ov_nx@[#[trigger] index_spec(a, b, c)]
                    == base_or_air(r0, k_nx)[index_spec(a, b, c)] by {
                lemma_index_in_range(a, b, c);
            }
            lemma_grids_equal(ov_nx@, base_or_air(r0, k_nx));
        }
        if !need_pz {
            assert forall|a: int, b: int, c: int| valid_coords(a, b, c)
                implies ov_pz@[#[trigger] index_spec(a, b, c)]
                    == base_or_air(r0, k_pz)[index_spec(a, b, c)] by {
                lemma_index_in_range(a, b, c);
            }
            lemma_grids_equal(ov_pz@, base_or_air(r0, k_pz));
        }
        if !need_nz {
            assert forall|a: int, b: int, c: int| valid_coords(a, b, c)
                implies ov_nz@[#[trigger] index_spec(a, b, c)]
                    == base_or_air(r0, k_nz)[index_spec(a, b, c)] by {
                lemma_index_in_range(a, b, c);
            }
            lemma_grids_equal(ov_nz@, base_or_air(r0, k_nz));
        }
        assert(k_px == pos_x_key(chunk_pos) && k_nx == neg_x_key(chunk_pos)
            && k_pz == pos_z_key(chunk_pos) && k_nz == neg_z_key(chunk_pos));
        assert(k_px != k_nx && k_px != k_pz && k_px != k_nz && k_nx != k_pz && k_nx != k_nz
            && k_pz != k_nz);
    }

    if need_px || px_present {
        world_map.insert_reserved(k_px, ov_px);
    }
    if need_nx || nx_present {
        world_map.insert_reserved(k_nx, ov_nx);
    }
    if need_pz || pz_present {
        world_map.insert_reserved(k_pz, ov_pz);
    }
    if need_nz || nz_present {
        world_map.insert_reserved(k_nz, ov_nz);
    }

    proof {
        assert(world_map.reserved_view() =~= tree_reserved_after(r0, chunk_pos, xi, yi, zi, hi));
    }
}

} // verus!
