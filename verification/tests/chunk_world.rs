use voxel_renderer::chunk::SimpleChunk;
use voxel_renderer::terrain::{Direction, IntCoord, Scene, WorldInterface};

#[test]
fn new_chunk_is_all_air() {
    let chunk = SimpleChunk::new();
    assert_eq!(chunk.get(&[0, 0, 0]), 0);
    assert_eq!(chunk.get(&[15, 99, 15]), 0);
    assert!(chunk.get_updated_block_coords().is_empty());
}

#[test]
fn update_writes_values_and_records_changes() {
    let mut chunk = SimpleChunk::new();
    chunk.update(&[([1, 2, 3], 1), ([4, 5, 6], 2)]);
    assert_eq!(chunk.get(&[1, 2, 3]), 1);
    assert_eq!(chunk.get(&[4, 5, 6]), 2);
    let changed = chunk.get_updated_block_coords();
    assert_eq!(changed.len(), 2);
    assert_eq!(changed[0].0, [1, 2, 3]);
    assert_eq!(changed[1].0, [4, 5, 6]);
    assert!(chunk.is_updated(&IntCoord([1, 2, 3])));
    assert!(chunk.is_updated(&IntCoord([4, 5, 6])));
    assert!(!chunk.is_updated(&IntCoord([0, 0, 0])));
}

#[test]
fn writing_the_same_value_is_not_a_change() {
    let mut chunk = SimpleChunk::new();
    chunk.update(&[([1, 1, 1], 1)]);
    chunk.update(&[([1, 1, 1], 1), ([2, 2, 2], 2)]);
    let changed = chunk.get_updated_block_coords();
    assert_eq!(changed.len(), 1);
    assert_eq!(changed[0].0, [2, 2, 2]);
    assert!(!chunk.is_updated(&IntCoord([1, 1, 1])));
}

#[test]
fn each_batch_replaces_the_changed_set() {
    let mut chunk = SimpleChunk::new();
    chunk.update(&[([1, 1, 1], 1)]);
    chunk.update(&[([2, 1, 1], 1)]);
    assert!(!chunk.is_updated(&IntCoord([1, 1, 1])));
    assert!(chunk.is_updated(&IntCoord([2, 1, 1])));
    assert_eq!(chunk.get(&[1, 1, 1]), 1);
}

#[test]
fn repeated_writes_of_one_cell_record_it_once() {
    let mut chunk = SimpleChunk::new();
    chunk.update(&[([1, 1, 1], 1), ([1, 1, 1], 2), ([1, 1, 1], 1)]);
    let changed = chunk.get_updated_block_coords();
    assert_eq!(changed.len(), 1);
    assert_eq!(changed[0].0, [1, 1, 1]);
    assert_eq!(chunk.get(&[1, 1, 1]), 1);
}

#[test]
fn get_mut_writes_without_recording() {
    let mut chunk = SimpleChunk::new();
    *chunk.get_mut(&[7, 8, 9]) = 2;
    assert_eq!(chunk.get(&[7, 8, 9]), 2);
    assert!(!chunk.is_updated(&IntCoord([7, 8, 9])));
}

#[test]
fn out_of_grid_neighbors_are_air() {
    // a block in the grid's corner: all six faces visible, the ones looking
    // out of the grid included
    let mut chunk = SimpleChunk::new();
    chunk.update(&[([0, 0, 0], 1)]);
    let mut scene = Scene::new();
    scene.update(&chunk);
    assert_eq!(scene.len(), 6);
    let block = chunk.get_block(&IntCoord([-1, 0, 0]));
    for d in 0u8..6 {
        assert!(block.face(Direction(d)).is_none());
    }
}
