use voxel_renderer::chunk::SimpleChunk;
use voxel_renderer::terrain::{Direction, Face, IntCoord, Scene, TextureId};

fn count_dir(scene: &Scene, direction: u32) -> usize {
    scene.faces().iter().filter(|f| f.direction == direction).count()
}

fn count_key(scene: &Scene, coord: [i32; 3], direction: u32) -> usize {
    scene.faces().iter().filter(|f| f.coord == coord && f.direction == direction).count()
}

fn assert_no_duplicate_keys(scene: &Scene) {
    let faces = scene.faces();
    for i in 0..faces.len() {
        for j in (i + 1)..faces.len() {
            assert!(
                !(faces[i].coord == faces[j].coord && faces[i].direction == faces[j].direction),
                "two faces share the boundary {:?} {}",
                faces[i].coord,
                faces[i].direction
            );
        }
    }
}

fn floor_edits(y: usize, value: u32) -> Vec<([usize; 3], u32)> {
    vec![
        ([1, y, 1], value),
        ([1, y, 2], value),
        ([2, y, 1], value),
        ([2, y, 2], value),
    ]
}

#[test]
fn direction_opposite_flips_sign_bit() {
    for d in 0u8..6 {
        let dir = Direction(d);
        assert_eq!(dir.opposite().0, d ^ 1);
        assert_eq!(dir.opposite().opposite().0, d);
    }
}

#[test]
fn next_steps_one_unit_along_axis() {
    let c = IntCoord([3, -7, 11]);
    assert_eq!(c.next(Direction(0)).0, [2, -7, 11]);
    assert_eq!(c.next(Direction(1)).0, [4, -7, 11]);
    assert_eq!(c.next(Direction(2)).0, [3, -8, 11]);
    assert_eq!(c.next(Direction(3)).0, [3, -6, 11]);
    assert_eq!(c.next(Direction(4)).0, [3, -7, 10]);
    assert_eq!(c.next(Direction(5)).0, [3, -7, 12]);
}

#[test]
fn texture_id_rejects_zero() {
    assert!(TextureId::new(0).is_none());
    assert_eq!(TextureId::new(7).unwrap().get(), 7);
}

#[test]
fn single_floor_has_sixteen_faces() {
    // a 1-block-thick floor of 2×2 opaque blocks of type 1 at y = 1
    let mut chunk = SimpleChunk::new();
    chunk.update(&floor_edits(1, 1));
    let mut scene = Scene::new();
    scene.update(&chunk);

    assert_eq!(scene.len(), 16);
    assert_eq!(count_dir(&scene, 3), 4, "top faces");
    assert_eq!(count_dir(&scene, 2), 4, "bottom faces");
    assert_eq!(
        count_dir(&scene, 0) + count_dir(&scene, 1) + count_dir(&scene, 4) + count_dir(&scene, 5),
        8,
        "side faces"
    );
    for f in scene.faces().iter() {
        assert_eq!(f.texture, 1);
    }
    assert_no_duplicate_keys(&scene);
}

#[test]
fn second_floor_culls_the_interior_boundary() {
    let mut chunk = SimpleChunk::new();
    chunk.update(&floor_edits(1, 1));
    let mut scene = Scene::new();
    scene.update(&chunk);
    assert_eq!(scene.len(), 16);

    // an identical floor directly above: the touching boundary disappears
    chunk.update(&floor_edits(2, 1));
    scene.update(&chunk);

    assert_eq!(scene.len(), 24);
    for x in 1..=2i32 {
        for z in 1..=2i32 {
            assert_eq!(count_key(&scene, [x, 1, z], 3), 0, "lower top face must be culled");
            assert_eq!(count_key(&scene, [x, 2, z], 2), 0, "upper bottom face must be culled");
            assert_eq!(count_key(&scene, [x, 2, z], 3), 1, "upper top face");
            assert_eq!(count_key(&scene, [x, 1, z], 2), 1, "lower bottom face");
        }
    }
    assert_eq!(count_dir(&scene, 3), 4);
    assert_eq!(count_dir(&scene, 2), 4);
    assert_no_duplicate_keys(&scene);
}

#[test]
fn empty_update_changes_nothing() {
    let mut chunk = SimpleChunk::new();
    chunk.update(&floor_edits(1, 1));
    let mut scene = Scene::new();
    scene.update(&chunk);
    let before: Vec<Face> = scene.faces().clone();

    chunk.update(&[]);
    scene.update(&chunk);
    scene.update(&chunk);

    let after = scene.faces();
    assert_eq!(before.len(), after.len());
    for (a, b) in before.iter().zip(after.iter()) {
        assert_eq!(a.coord, b.coord);
        assert_eq!(a.direction, b.direction);
        assert_eq!(a.texture, b.texture);
    }
}

#[test]
fn adjacent_changed_cells_share_one_face() {
    // two mutually adjacent cells change in one batch, and their shared
    // boundary stays visible from one side only: exactly one face stands
    let mut chunk = SimpleChunk::new();
    chunk.update(&[([3, 1, 1], 1), ([4, 1, 1], 2)]);
    let mut scene = Scene::new();
    scene.update(&chunk);
    assert_no_duplicate_keys(&scene);

    chunk.update(&[([4, 1, 1], 0), ([3, 1, 1], 2)]);
    scene.update(&chunk);

    assert_eq!(count_key(&scene, [3, 1, 1], 1), 1);
    assert_eq!(count_key(&scene, [4, 1, 1], 0), 0);
    assert_eq!(scene.len(), 6);
    for f in scene.faces().iter() {
        assert_eq!(f.texture, 2);
    }
    assert_no_duplicate_keys(&scene);
}

#[test]
fn incremental_update_keeps_distant_faces() {
    let mut chunk = SimpleChunk::new();
    chunk.update(&[([1, 1, 1], 1)]);
    let mut scene = Scene::new();
    scene.update(&chunk);
    let distant: Vec<Face> =
        scene.faces().iter().copied().filter(|f| f.coord == [1, 1, 1]).collect();
    assert_eq!(distant.len(), 6);

    chunk.update(&[([10, 5, 10], 2)]);
    scene.update(&chunk);

    for f in &distant {
        assert_eq!(count_key(&scene, f.coord, f.direction), 1);
    }
    assert_eq!(scene.len(), 12);
}

#[test]
fn serialized_records_match_the_face_list() {
    let mut chunk = SimpleChunk::new();
    chunk.update(&[([5, 1, 5], 1)]);
    let mut scene = Scene::new();
    scene.update(&chunk);

    let faces = scene.faces();
    let bytes = scene.buffer().buffer();
    assert_eq!(bytes.len(), 20 * faces.len());
    for (k, f) in faces.iter().enumerate() {
        let rec = &bytes[20 * k..20 * (k + 1)];
        assert_eq!(&rec[0..4], &f.coord[0].to_le_bytes());
        assert_eq!(&rec[4..8], &f.coord[1].to_le_bytes());
        assert_eq!(&rec[8..12], &f.coord[2].to_le_bytes());
        assert_eq!(&rec[12..16], &f.direction.to_le_bytes());
        assert_eq!(&rec[16..20], &f.texture.to_le_bytes());
    }
}

#[test]
fn scene_buffer_capacity_grows_and_never_shrinks() {
    let mut chunk = SimpleChunk::new();
    let mut scene = Scene::new();
    assert_eq!(scene.buffer().capacity_bytes(), 512);

    // 16 faces = 320 bytes: fits the initial 512
    chunk.update(&floor_edits(1, 1));
    scene.update(&chunk);
    assert_eq!(scene.buffer().capacity_bytes(), 512);

    // a detached 6×6 slab adds 96 faces: 112 faces = 2240 bytes, so the
    // capacity doubles from 512 up to 4096
    let mut edits = Vec::new();
    for x in 1..7usize {
        for z in 1..7usize {
            edits.push(([x, 3, z], 1u32));
        }
    }
    chunk.update(&edits);
    scene.update(&chunk);
    assert_eq!(scene.len(), 112);
    assert_eq!(scene.buffer().payload_len(), 20 * scene.len());
    assert_eq!(scene.buffer().capacity_bytes(), 4096);

    // clearing the slab shrinks the list but never the capacity
    for e in edits.iter_mut() {
        e.1 = 0;
    }
    chunk.update(&edits);
    scene.update(&chunk);
    assert_eq!(scene.len(), 16);
    assert_eq!(scene.buffer().capacity_bytes(), 4096);
}
