use budgetcraft::grid::{BlockGrid, BlockType};
use budgetcraft::player::PlayerPlugin;
use budgetcraft::queue::ChunkQueue;
use budgetcraft::structures::{add_cactus, add_tree};
use budgetcraft::world::WorldMap;

#[test]
fn cactus_column_above_base() {
    let mut g = BlockGrid::new();
    add_cactus(3, 2, 10, 5, &mut g);
    assert_eq!(g.get(2, 10, 5), BlockType::Air);
    assert_eq!(g.get(2, 11, 5), BlockType::Cactus);
    assert_eq!(g.get(2, 12, 5), BlockType::Cactus);
    assert_eq!(g.get(2, 13, 5), BlockType::Air);
    assert_eq!(g.get(3, 11, 5), BlockType::Air);
}

#[test]
fn cactus_clipped_at_chunk_top() {
    let mut g = BlockGrid::new();
    add_cactus(3, 2, 254, 5, &mut g);
    // 254 + 1 is already the top layer, so nothing is written.
    assert_eq!(g.get(2, 255, 5), BlockType::Air);
}

#[test]
fn tree_interior_shape() {
    let mut w = WorldMap::new();
    let mut g = BlockGrid::new();
    add_tree(5, (0, 0), 4, 10, 4, &mut w, &mut g);

    // Cap and trunk.
    assert_eq!(g.get(4, 15, 4), BlockType::Leaves);
    for b in 11..=14 {
        assert_eq!(g.get(4, b, 4), BlockType::WoodLog);
    }
    assert_eq!(g.get(4, 10, 4), BlockType::Air);

    // First ring level (height 13) reaches two cells out.
    for (a, c) in [(5, 4), (6, 4), (3, 4), (2, 4), (4, 5), (4, 6), (4, 3), (4, 2)] {
        assert_eq!(g.get(a, 13, c), BlockType::Leaves);
    }
    assert_eq!(g.get(7, 13, 4), BlockType::Air);
    assert_eq!(g.get(4, 13, 7), BlockType::Air);

    // Second ring level (height 14) reaches one cell out.
    for (a, c) in [(5, 4), (3, 4), (4, 5), (4, 3)] {
        assert_eq!(g.get(a, 14, c), BlockType::Leaves);
    }
    assert_eq!(g.get(6, 14, 4), BlockType::Air);
}

#[test]
fn tree_interior_reserves_nothing() {
    let mut w = WorldMap::new();
    let mut g = BlockGrid::new();
    add_tree(5, (0, 0), 4, 10, 4, &mut w, &mut g);
    for k in [(1, 0), (-1, 0), (0, 1), (0, -1)] {
        assert!(w.take_reserved(k).is_none(), "interior tree must not spill");
    }
}

#[test]
fn tree_at_right_edge_spills_into_pos_x_neighbor() {
    let mut w = WorldMap::new();
    let mut g = BlockGrid::new();
    let x = 7;
    add_tree(5, (0, 0), x, 10, 4, &mut w, &mut g);

    let ov = w.take_reserved((1, 0)).expect("rightmost tree must reserve +x neighbor");
    // Ring radius j crosses the edge for j = 1 and j = 2 at the first
    // level; the buffer holds the wrapped local x coordinate (x + j) - 8.
    assert_eq!(ov.get((x + 1) - 8, 13, 4), BlockType::Leaves);
    assert_eq!(ov.get((x + 2) - 8, 13, 4), BlockType::Leaves);
    assert_eq!(ov.get((x + 1) - 8, 14, 4), BlockType::Leaves);
    assert_eq!(ov.get(2, 13, 4), BlockType::Air);
    // No spill to the other three neighbors.
    for k in [(-1, 0), (0, 1), (0, -1)] {
        assert!(w.take_reserved(k).is_none());
    }
}

#[test]
fn tree_spill_extends_existing_buffer() {
    let mut w = WorldMap::new();
    let mut existing = BlockGrid::new();
    existing.set(5, 1, 1, BlockType::Cactus);
    w.insert_reserved((1, 0), existing);

    let mut g = BlockGrid::new();
    add_tree(5, (0, 0), 7, 10, 4, &mut w, &mut g);
    let ov = w.take_reserved((1, 0)).expect("buffer should still exist");
    assert_eq!(ov.get(5, 1, 1), BlockType::Cactus);
    assert_eq!(ov.get(0, 13, 4), BlockType::Leaves);
}

fn break_target(point: (f32, f32, f32), normal: (f32, f32, f32)) -> (i32, i32, i32) {
    (
        (point.0 - normal.0 * 0.5).floor() as i32,
        (point.1 - normal.1 * 0.5).floor() as i32,
        (point.2 - normal.2 * 0.5).floor() as i32,
    )
}

fn place_target(point: (f32, f32, f32), normal: (f32, f32, f32)) -> (i32, i32, i32) {
    (
        (point.0 + normal.0 * 0.5).floor() as i32,
        (point.1 + normal.1 * 0.5).floor() as i32,
        (point.2 + normal.2 * 0.5).floor() as i32,
    )
}

#[test]
fn break_scenario_enqueues_neighbors() {
    let mut w = WorldMap::new();
    w.materialize((0, 0), BlockGrid::new());
    w.set_block((0, 0), 0, 10, 0, BlockType::Stone);
    let mut q = ChunkQueue::new();

    let (wx, wy, wz) = break_target((0.4, 10.6, 0.2), (0.0, 1.0, 0.0));
    assert_eq!((wx, wy, wz), (0, 10, 0));

    let changed = PlayerPlugin::break_block(&mut w, &mut q, wx, wy, wz);
    assert!(changed);
    assert_eq!(w.get_block((0, 0), 0, 10, 0), Some(BlockType::Air));
    let drained = q.drain();
    assert_eq!(drained.len(), 5);
    for k in [(0, 0), (-1, 0), (1, 0), (0, -1), (0, 1)] {
        assert!(drained.contains(&k), "missing neighbor {k:?}");
    }
}

#[test]
fn place_scenario_enqueues_neighbors() {
    let mut w = WorldMap::new();
    w.materialize((0, 0), BlockGrid::new());
    w.set_block((0, 0), 0, 10, 0, BlockType::Stone);
    let mut q = ChunkQueue::new();

    let (wx, wy, wz) = place_target((0.4, 10.6, 0.2), (0.0, 1.0, 0.0));
    assert_eq!((wx, wy, wz), (0, 11, 0));

    let changed = PlayerPlugin::place_block(&mut w, &mut q, wx, wy, wz);
    assert!(changed);
    assert_eq!(w.get_block((0, 0), 0, 11, 0), Some(BlockType::Stone));
    let drained = q.drain();
    assert_eq!(drained.len(), 5);
    for k in [(0, 0), (-1, 0), (1, 0), (0, -1), (0, 1)] {
        assert!(drained.contains(&k), "missing neighbor {k:?}");
    }
}

#[test]
fn breaking_air_twice_is_idempotent() {
    let mut w = WorldMap::new();
    w.materialize((0, 0), BlockGrid::new());
    let mut q = ChunkQueue::new();

    let neighbors = [(0, 0), (-1, 0), (1, 0), (0, -1), (0, 1)];

    let first = PlayerPlugin::break_block(&mut w, &mut q, 3, 50, 3);
    assert!(!first);
    assert_eq!(w.get_block((0, 0), 3, 50, 3), Some(BlockType::Air));
    for k in neighbors {
        assert!(q.contains(k));
    }

    let second = PlayerPlugin::break_block(&mut w, &mut q, 3, 50, 3);
    assert!(!second);
    assert_eq!(w.get_block((0, 0), 3, 50, 3), Some(BlockType::Air));
    let drained = q.drain();
    assert_eq!(drained.len(), 5, "queue must stay deduplicated");
    for k in neighbors {
        assert!(drained.contains(&k));
    }
}

#[test]
fn edits_in_negative_chunks_resolve_coordinates() {
    let mut w = WorldMap::new();
    w.materialize((-1, -1), BlockGrid::new());
    let mut q = ChunkQueue::new();
    // World (-1, 20, -8) lies in chunk (-1, -1) at local (7, 20, 0).
    let changed = PlayerPlugin::place_block(&mut w, &mut q, -1, 20, -8);
    assert!(changed);
    assert_eq!(w.get_block((-1, -1), 7, 20, 0), Some(BlockType::Stone));
}

#[test]
fn edit_on_missing_chunk_is_skipped() {
    let mut w = WorldMap::new();
    let mut q = ChunkQueue::new();
    assert!(!PlayerPlugin::break_block(&mut w, &mut q, 0, 10, 0));
    assert!(!PlayerPlugin::place_block(&mut w, &mut q, 0, 10, 0));
    assert!(q.drain().is_empty(), "skipped edits must not enqueue");
}

#[test]
fn edit_out_of_height_range_is_skipped() {
    let mut w = WorldMap::new();
    w.materialize((0, 0), BlockGrid::new());
    let mut q = ChunkQueue::new();
    assert!(!PlayerPlugin::break_block(&mut w, &mut q, 0, 300, 0));
    assert!(!PlayerPlugin::break_block(&mut w, &mut q, 0, -1, 0));
    assert!(q.drain().is_empty());
}

#[test]
fn place_into_occupied_cell_is_noop() {
    let mut w = WorldMap::new();
    w.materialize((0, 0), BlockGrid::new());
    w.set_block((0, 0), 2, 30, 2, BlockType::Stone);
    let mut q = ChunkQueue::new();
    let changed = PlayerPlugin::place_block(&mut w, &mut q, 2, 30, 2);
    assert!(!changed);
    assert_eq!(w.get_block((0, 0), 2, 30, 2), Some(BlockType::Stone));
    // The hit itself still refreshes the meshes around the target.
    assert_eq!(q.drain().len(), 5);
}
