//! The player's edit actions: a resolved ray-cast hit becomes a block
//! mutation plus remesh requests for the touched chunk and its neighbors.
//!
//! The embedding resolves the hit point and surface normal to an integer
//! target cell (`floor(point - normal * 0.5)` to break, `floor(point +
//! normal * 0.5)` to place) and hands the cell's world coordinates here.
use vstd::prelude::*;
use crate::{CHUNK_HEIGHT, CHUNK_WIDTH};
use crate::grid::{BlockType, index_spec, valid_coords};
use crate::queue::{enqueue_spec, ChunkQueue};
use crate::world::WorldMap;

verus! {

/// Chunk coordinate of a world axis position.
pub open spec fn chunk_axis_spec(w: int) -> int {
    w / (CHUNK_WIDTH as int)
}

/// Local coordinate of a world axis position inside its chunk.
pub open spec fn local_axis_spec(w: int) -> int {
    w % (CHUNK_WIDTH as int)
}

/// The chunk a world cell belongs to.
pub open spec fn hit_chunk(wx: int, wz: int) -> (i32, i32) {
    (chunk_axis_spec(wx) as i32, chunk_axis_spec(wz) as i32)
}

/// The queue after a successful edit: the touched chunk and its four
/// orthogonal neighbors become pending, duplicates folded away.
pub open spec fn enqueue_with_neighbors(q: Seq<(i32, i32)>, c: (i32, i32)) -> Seq<(i32, i32)> {
    let q1 = enqueue_spec(q, c);
    let q2 = enqueue_spec(q1, ((c.0 - 1) as i32, c.1));
    let q3 = enqueue_spec(q2, ((c.0 + 1) as i32, c.1));
    let q4 = enqueue_spec(q3, (c.0, (c.1 - 1) as i32));
    enqueue_spec(q4, (c.0, (c.1 + 1) as i32))
}

/// An edit applies only when the target height is inside the chunk and the
/// target chunk has been materialized.
pub open spec fn edit_in_range(world: WorldMap, wx: int, wy: int, wz: int) -> bool {
    0 <= wy < CHUNK_HEIGHT && world.chunks_view().contains_key(hit_chunk(wx, wz))
}

/// The block currently at a world cell of a materialized chunk.
pub open spec fn block_at(world: WorldMap, wx: int, wy: int, wz: int) -> BlockType {
    world.chunks_view()[hit_chunk(wx, wz)][index_spec(
        local_axis_spec(wx),
        wy,
        local_axis_spec(wz),
    )]
}

/// The materialized chunks after one cell of one chunk is overwritten.
pub open spec fn world_with_block(world: WorldMap, wx: int, wy: int, wz: int, b: BlockType)
    -> Map<(i32, i32), Seq<BlockType>> {
    world.chunks_view().insert(
        hit_chunk(wx, wz),
        world.chunks_view()[hit_chunk(wx, wz)].update(
            index_spec(local_axis_spec(wx), wy, local_axis_spec(wz)),
            b,
        ),
    )
}

/// A coordinate survives an enqueue, and the enqueued coordinate is pending
/// afterwards.
proof fn lemma_enqueue_contains(q: Seq<(i32, i32)>, e: (i32, i32), f: (i32, i32))
    ensures
        enqueue_spec(q, f).contains(f),
        q.contains(e) ==> enqueue_spec(q, f).contains(e),
{
    if !q.contains(f) {
        assert(q.push(f)[q.len() as int] == f);
    }
    if q.contains(e) {
        let i = choose|i: int| 0 <= i < q.len() && q[i] == e;
        if !q.contains(f) {
            assert(q.push(f)[i] == e);
        }
    }
}

/// Editing the same cell twice queues nothing new: once the touched chunk
/// and its four neighbors are pending, queueing them again leaves the queue
/// exactly as it was. In particular, breaking an already-Air cell twice
/// leaves the cell Air (by `break_block`'s contract nothing is written
/// either time) and both passes leave the same, still-deduplicated queue.
pub proof fn lemma_enqueue_neighbors_idempotent(q: Seq<(i32, i32)>, c: (i32, i32))
    ensures
        enqueue_with_neighbors(enqueue_with_neighbors(q, c), c) == enqueue_with_neighbors(q, c),
{
    let n1 = ((c.0 - 1) as i32, c.1);
    let n2 = ((c.0 + 1) as i32, c.1);
    let n3 = (c.0, (c.1 - 1) as i32);
    let n4 = (c.0, (c.1 + 1) as i32);
    let q1 = enqueue_spec(q, c);
    let q2 = enqueue_spec(q1, n1);
    let q3 = enqueue_spec(q2, n2);
    let q4 = enqueue_spec(q3, n3);
    let q5 = enqueue_spec(q4, n4);
    lemma_enqueue_contains(q, c, c);
    lemma_enqueue_contains(q1, c, n1);
    lemma_enqueue_contains(q1, n1, n1);
    lemma_enqueue_contains(q2, c, n2);
    lemma_enqueue_contains(q2, n1, n2);
    lemma_enqueue_contains(q2, n2, n2);
    lemma_enqueue_contains(q3, c, n3);
    lemma_enqueue_contains(q3, n1, n3);
    lemma_enqueue_contains(q3, n2, n3);
    lemma_enqueue_contains(q3, n3, n3);
    lemma_enqueue_contains(q4, c, n4);
    lemma_enqueue_contains(q4, n1, n4);
    lemma_enqueue_contains(q4, n2, n4);
    lemma_enqueue_contains(q4, n3, n4);
    lemma_enqueue_contains(q4, n4, n4);
}

/// Split one world axis position into chunk and local coordinates.
fn chunk_axis(w: i32) -> (r: (i32, usize))
    ensures
        r.0 as int == chunk_axis_spec(w as int),
        r.1 as int == local_axis_spec(w as int),
        -268435456 <= r.0 as int <= 268435456,
        r.1 < CHUNK_WIDTH,
{
    if w >= 0 {
        let q = (w as u32 / 8) as i32;
        let l = (w as u32 % 8) as usize;
        proof {
            assert(8 * (q as int) <= w as int);
            assert((w as int) < 8 * (q as int) + 8);
            assert(q as int == w as int / 8);
        }
        (q, l)
    } else {
        let m = (-(w + 1)) as u32;
        let d = (m / 8) as i32;
        let q = -d - 1;
        let l = (7 - (m % 8) as i32) as usize;
        proof {
            assert(m as int == -(w as int) - 1);
            assert(8 * (d as int) <= m as int);
            assert((m as int) < 8 * (d as int) + 8);
            assert(8 * (q as int) <= w as int);
            assert((w as int) < 8 * (q as int) + 8);
            assert(q as int == w as int / 8);
            assert(l as int == w as int - 8 * (w as int / 8));
        }
        (q, l)
    }
}

/// The player-interaction component: breaking and placing blocks.
pub struct PlayerPlugin;

impl PlayerPlugin {
    /// Break the block at a world cell: a non-Air cell becomes Air. When the
    /// target chunk is materialized and the height is in range, the chunk
    /// and its four orthogonal neighbors are queued for remeshing whether or
    /// not the cell changed; otherwise the edit is silently skipped.
    /// Returns whether a cell changed.
    pub fn break_block(
        world: &mut WorldMap,
        queue: &mut ChunkQueue,
        wx: i32,
        wy: i32,
        wz: i32,
    ) -> (r: bool)
        requires
            old(world).wf(),
            old(queue).wf(),
        ensures
            final(world).wf(),
            final(queue).wf(),
            final(world).reserved_view() == old(world).reserved_view(),
            edit_in_range(*old(world), wx as int, wy as int, wz as int) ==> {
                &&& r == (block_at(*old(world), wx as int, wy as int, wz as int)
                    != BlockType::Air)
                &&& final(queue)@ == enqueue_with_neighbors(
                    old(queue)@,
                    hit_chunk(wx as int, wz as int),
                )
                &&& final(world).chunks_view() == if r {
                    world_with_block(
                        *old(world),
                        wx as int,
                        wy as int,
                        wz as int,
                        BlockType::Air,
                    )
                } else {
                    old(world).chunks_view()
                }
            },
            !edit_in_range(*old(world), wx as int, wy as int, wz as int) ==> {
                &&& r == false
                &&& *final(world) == *old(world)
                &&& *final(queue) == *old(queue)
            },
    {
        let (cx, lx) = chunk_axis(wx);
        let (cz, lz) = chunk_axis(wz);
        if wy < 0 || wy >= 256 {
            return false;
        }
        let y = wy as usize;
        let c = (cx, cz);
        proof {
            assert(c == hit_chunk(wx as int, wz as int));
            assert(valid_coords(lx as int, y as int, lz as int));
        }
        match world.get_block(c, lx, y, lz) {
            None => false,
            Some(cur) => {
                let r = cur != BlockType::Air;
                if r {
                    world.set_block(c, lx, y, lz, BlockType::Air);
                }
                queue.enqueue(c);
                queue.enqueue((cx - 1, cz));
                queue.enqueue((cx + 1, cz));
                queue.enqueue((cx, cz - 1));
                queue.enqueue((cx, cz + 1));
                r
            },
        }
    }

    /// Place a Stone block at a world cell: an Air cell becomes Stone. The
    /// same range checks, remesh queueing and silent no-ops apply as for
    /// breaking. Returns whether a cell changed.
    pub fn place_block(
        world: &mut WorldMap,
        queue: &mut ChunkQueue,
        wx: i32,
        wy: i32,
        wz: i32,
    ) -> (r: bool)
        requires
            old(world).wf(),
            old(queue).wf(),
        ensures
            final(world).wf(),
            final(queue).wf(),
            final(world).reserved_view() == old(world).reserved_view(),
            edit_in_range(*old(world), wx as int, wy as int, wz as int) ==> {
                &&& r == (block_at(*old(world), wx as int, wy as int, wz as int)
                    == BlockType::Air)
                &&& final(queue)@ == enqueue_with_neighbors(
                    old(queue)@,
                    hit_chunk(wx as int, wz as int),
                )
                &&& final(world).chunks_view() == if r {
                    world_with_block(
                        *old(world),
                        wx as int,
                        wy as int,
                        wz as int,
                        BlockType::Stone,
                    )
                } else {
                    old(world).chunks_view()
                }
            },
            !edit_in_range(*old(world), wx as int, wy as int, wz as int) ==> {
                &&& r == false
                &&& *final(world) == *old(world)
                &&& *final(queue) == *old(queue)
            },
    {
        let (cx, lx) = chunk_axis(wx);
        let (cz, lz) = chunk_axis(wz);
        if wy < 0 || wy >= 256 {
            return false;
        }
        let y = wy as usize;
        let c = (cx, cz);
        proof {
            assert(c == hit_chunk(wx as int, wz as int));
            assert(valid_coords(lx as int, y as int, lz as int));
        }
        match world.get_block(c, lx, y, lz) {
            None => false,
            Some(cur) => {
                let r = cur == BlockType::Air;
                if r {
                    world.set_block(c, lx, y, lz, BlockType::Stone);
                }
                queue.enqueue(c);
                queue.enqueue((cx - 1, cz));
                queue.enqueue((cx + 1, cz));
                queue.enqueue((cx, cz - 1));
                queue.enqueue((cx, cz + 1));
                r
            },
        }
    }
}

} // verus!
