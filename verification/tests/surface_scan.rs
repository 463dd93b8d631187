use voxel_renderer::chunk::SimpleChunk;
use voxel_renderer::terrain::{Direction, IntCoord, Scene, WorldInterface};

/// Checks the scene against an independent scan of a region: a boundary holds
/// exactly one face when one side shows a texture and the other does not,
/// and no face otherwise.
fn check_against_scan(scene: &Scene, chunk: &SimpleChunk, max: i32) {
    for x in -1..max {
        for y in -1..max {
            for z in -1..max {
                for d in 0u8..6 {
                    let coord = IntCoord([x, y, z]);
                    let dir = Direction(d);
                    let neighbor = coord.next(dir);
                    let here = chunk.get_block(&coord).face(dir);
                    let there = chunk.get_block(&neighbor).face(dir.opposite());
                    let expected = match (here, there) {
                        (Some(_), None) => 1,
                        _ => 0,
                    };
                    let found = scene
                        .faces()
                        .iter()
                        .filter(|f| f.coord == [x, y, z] && f.direction == d as u32)
                        .count();
                    assert_eq!(
                        found, expected,
                        "boundary at {:?} direction {} has {} faces, expected {}",
                        [x, y, z], d, found, expected
                    );
                }
            }
        }
    }
}

#[test]
fn every_update_of_a_stacking_session_matches_the_scan() {
    let mut chunk = SimpleChunk::new();
    let mut scene = Scene::new();

    // the demo's session: stack alternating floors upwards, then remove them
    for i in 2..8usize {
        let v = i as u32;
        chunk.update(&[
            ([1, i, 1], (v + 1) % 2 + 1),
            ([1, i, 2], (v + 2) % 2 + 1),
            ([2, i, 1], (v + 2) % 2 + 1),
            ([2, i, 2], (v + 1) % 2 + 1),
        ]);
        scene.update(&chunk);
        check_against_scan(&scene, &chunk, 12);
    }
    for i in (3..8usize).rev() {
        chunk.update(&[([1, i, 1], 0), ([1, i, 2], 0), ([2, i, 1], 0), ([2, i, 2], 0)]);
        scene.update(&chunk);
        check_against_scan(&scene, &chunk, 12);
    }

    // the stack is back to its bottom floor: its exposed surface alone
    assert_eq!(scene.len(), 16);
}
