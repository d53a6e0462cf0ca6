use budgetcraft::grid::{BlockGrid, BlockType};
use budgetcraft::queue::ChunkQueue;
use budgetcraft::world::WorldMap;
use budgetcraft::{CHUNK_HEIGHT, CHUNK_VOL, CHUNK_WIDTH};

#[test]
fn constants_fixed_at_boundary() {
    assert_eq!(CHUNK_WIDTH, 8);
    assert_eq!(CHUNK_HEIGHT, 256);
    assert_eq!(CHUNK_VOL, 8 * 8 * 256);
}

#[test]
fn index_formula_exact() {
    assert_eq!(BlockGrid::index(0, 0, 0), 0);
    assert_eq!(BlockGrid::index(1, 2, 3), 1 + 2 * 8 + 3 * 8 * 256);
    assert_eq!(BlockGrid::index(7, 255, 7), CHUNK_VOL - 1);
}

#[test]
fn index_distinct_for_distinct_coords() {
    let mut seen = vec![false; CHUNK_VOL];
    for z in 0..CHUNK_WIDTH {
        for y in 0..CHUNK_HEIGHT {
            for x in 0..CHUNK_WIDTH {
                let n = BlockGrid::index(x, y, z);
                assert!(n < CHUNK_VOL);
                assert!(!seen[n], "linear index hit twice");
                seen[n] = true;
            }
        }
    }
    assert!(seen.iter().all(|&v| v), "some linear index never hit");
}

#[test]
fn grid_set_then_get_round_trip() {
    let mut g = BlockGrid::new();
    assert_eq!(g.get(3, 40, 5), BlockType::Air);
    g.set(3, 40, 5, BlockType::Stone);
    assert_eq!(g.get(3, 40, 5), BlockType::Stone);
    assert_eq!(g.get(3, 41, 5), BlockType::Air);
    assert_eq!(g.get(2, 40, 5), BlockType::Air);
}

#[test]
fn world_set_then_get_round_trip() {
    let mut w = WorldMap::new();
    w.materialize((2, -3), BlockGrid::new());
    w.set_block((2, -3), 1, 100, 7, BlockType::WoodLog);
    assert_eq!(w.get_block((2, -3), 1, 100, 7), Some(BlockType::WoodLog));
    assert_eq!(w.get_block((2, -3), 1, 101, 7), Some(BlockType::Air));
}

#[test]
fn get_block_missing_chunk_is_none() {
    let w = WorldMap::new();
    assert_eq!(w.get_block((0, 0), 0, 0, 0), None);
    assert!(!w.is_materialized((0, 0)));
}

#[test]
fn materialize_empty_world_all_air() {
    let mut w = WorldMap::new();
    w.materialize((0, 0), BlockGrid::new());
    assert_eq!(w.get_block((0, 0), 0, 0, 0), Some(BlockType::Air));
}

#[test]
fn materialize_merges_reserved_overflow_once() {
    let mut w = WorldMap::new();
    let mut overflow = BlockGrid::new();
    overflow.set(4, 10, 4, BlockType::Leaves);
    w.insert_reserved((1, 0), overflow);

    let mut base = BlockGrid::new();
    base.set(4, 10, 4, BlockType::Stone);
    base.set(0, 0, 0, BlockType::Stone);
    w.materialize((1, 0), base);

    // Overflow wins where it holds a non-Air value; base shows elsewhere.
    assert_eq!(w.get_block((1, 0), 4, 10, 4), Some(BlockType::Leaves));
    assert_eq!(w.get_block((1, 0), 0, 0, 0), Some(BlockType::Stone));
    assert_eq!(w.get_block((1, 0), 5, 5, 5), Some(BlockType::Air));
    // The reserved entry was consumed by the merge.
    assert!(w.take_reserved((1, 0)).is_none());
}

#[test]
fn take_reserved_consumes_entry() {
    let mut w = WorldMap::new();
    let mut g = BlockGrid::new();
    g.set(0, 1, 0, BlockType::Cactus);
    w.insert_reserved((-5, 9), g);
    let taken = w.take_reserved((-5, 9)).expect("reserved entry should be present");
    assert_eq!(taken.get(0, 1, 0), BlockType::Cactus);
    assert!(w.take_reserved((-5, 9)).is_none());
}

#[test]
fn queue_deduplicates() {
    let mut q = ChunkQueue::new();
    q.enqueue((0, 0));
    q.enqueue((1, 0));
    q.enqueue((0, 0));
    assert!(q.contains((0, 0)));
    assert!(q.contains((1, 0)));
    let drained = q.drain();
    assert_eq!(drained, vec![(0, 0), (1, 0)]);
}

#[test]
fn queue_drain_is_one_shot() {
    let mut q = ChunkQueue::new();
    q.enqueue((3, -4));
    let first = q.drain();
    assert_eq!(first, vec![(3, -4)]);
    let second = q.drain();
    assert!(second.is_empty());
    q.enqueue((3, -4));
    assert_eq!(q.drain(), vec![(3, -4)]);
}
