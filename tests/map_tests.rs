use voxel_world::chunk_generators::ChunkGenerator;
use voxel_world::chunk_map::{ChunkMap, MapError, CHUNK_VOLUME, EMPTY_BLOCK};
use voxel_world::vector::IVec3;

/// Puts block 1 on the chunk's floor and leaves the rest empty.
struct FloorGenerator;

impl ChunkGenerator for FloorGenerator {
    fn generate_chunk(&self, block_ids: &mut [u8], _world_grid_position: [i32; 3], chunk_dims: [usize; 3]) {
        let area = chunk_dims[0] * chunk_dims[1];
        for (i, id) in block_ids.iter_mut().enumerate() {
            let y = (i % area) / chunk_dims[0];
            *id = if y == 0 { 1 } else { EMPTY_BLOCK };
        }
    }
}

/// Writes the world position's x into every voxel.
struct PositionGenerator;

impl ChunkGenerator for PositionGenerator {
    fn generate_chunk(&self, block_ids: &mut [u8], world_grid_position: [i32; 3], _chunk_dims: [usize; 3]) {
        for id in block_ids.iter_mut() {
            *id = world_grid_position[0] as u8;
        }
    }
}

#[test]
fn map_slot_count_matches_ball() {
    let map = ChunkMap::new(IVec3::new(0, 0, 0), 3).unwrap();
    assert_eq!(map.chunk_count(), 33);
    assert_eq!(map.chunk_dims(), [16, 16, 16]);
    assert_eq!(map.chunk_len(), 4096);
    let map = ChunkMap::new(IVec3::new(5, -5, 7), 1).unwrap();
    assert_eq!(map.chunk_count(), 1);
}

#[test]
fn map_construction_errors() {
    assert_eq!(ChunkMap::new(IVec3::new(0, 0, 0), 0).err(), Some(MapError::Configuration));
    assert_eq!(ChunkMap::new(IVec3::new(0, 0, 0), 257).err(), Some(MapError::Configuration));
    assert_eq!(ChunkMap::new(IVec3::new(i32::MAX, 0, 0), 2).err(), Some(MapError::OutOfWorld));
    assert!(ChunkMap::new(IVec3::new(i32::MAX - 1, 0, 0), 2).is_ok());
}

#[test]
fn generation_fills_nearest_chunk_first() {
    let mut map = ChunkMap::new(IVec3::new(0, 0, 0), 2).unwrap();
    assert!(map.render_tree().is_none());
    map.generate_next_chunk(&FloorGenerator);
    let tree = map.render_tree().expect("viewer chunk generated");
    assert_eq!(tree.get(IVec3::new(3, 0, 9)), Some(1));
    assert_eq!(tree.get(IVec3::new(3, 1, 9)), None);
    for _ in 0..6 {
        map.generate_next_chunk(&FloorGenerator);
    }
    let pool = map.chunks();
    for i in 0..pool.len() {
        assert!(pool.is_chunk_in_use(i));
        assert!(pool.is_chunk_dirty(i));
    }
    map.generate_next_chunk(&FloorGenerator);
}

#[test]
fn generator_sees_world_positions() {
    let mut map = ChunkMap::new(IVec3::new(10, 0, 0), 2).unwrap();
    for _ in 0..7 {
        map.generate_next_chunk(&PositionGenerator);
    }
    let pool = map.chunks();
    for i in 0..pool.len() {
        let d = pool.get_displacement(i);
        let tree = pool.get_tree(i).unwrap();
        assert_eq!(tree.get(IVec3::new(0, 0, 0)), Some((10 + d.x) as u16));
    }
}

#[test]
fn moving_shifts_slots_against_the_viewer() {
    let mut map = ChunkMap::new(IVec3::new(0, 0, 0), 2).unwrap();
    for _ in 0..7 {
        map.generate_next_chunk(&PositionGenerator);
    }
    assert_eq!(map.adapt_to_world_position(IVec3::new(1, 0, 0)), Ok(()));
    assert_eq!(map.world_grid_pos(), IVec3::new(1, 0, 0));
    let tree = map.render_tree().expect("old +x chunk is now the viewer's");
    assert_eq!(tree.get(IVec3::new(5, 5, 5)), Some(1));
    let pool = map.chunks();
    let unused = (0..pool.len()).filter(|&i| !pool.is_chunk_in_use(i)).count();
    assert_eq!(unused, 5);
    for _ in 0..5 {
        map.generate_next_chunk(&PositionGenerator);
    }
    let pool = map.chunks();
    for i in 0..pool.len() {
        assert!(pool.is_chunk_in_use(i));
        let d = pool.get_displacement(i);
        assert_eq!(pool.get_tree(i).unwrap().get(IVec3::new(0, 0, 0)), Some((1 + d.x) as u16));
    }
}

#[test]
fn far_moves_and_refused_moves() {
    let mut map = ChunkMap::new(IVec3::new(0, 0, 0), 2).unwrap();
    for _ in 0..7 {
        map.generate_next_chunk(&FloorGenerator);
    }
    assert_eq!(map.adapt_to_world_position(IVec3::new(1_000_000, 0, -3)), Ok(()));
    let pool = map.chunks();
    assert!((0..pool.len()).all(|i| !pool.is_chunk_in_use(i)));
    assert_eq!(map.adapt_to_world_position(IVec3::new(i32::MIN, 0, 0)), Err(MapError::OutOfWorld));
    assert_eq!(map.world_grid_pos(), IVec3::new(1_000_000, 0, -3));
    assert_eq!(map.adapt_to_world_position(IVec3::new(1_000_000, 0, -3)), Ok(()));
}

#[test]
fn fill_chunk_writes_nonempty_blocks() {
    let mut map = ChunkMap::new(IVec3::new(0, 0, 0), 1).unwrap();
    map.generate_next_chunk(&FloorGenerator);
    let mut buffer = vec![EMPTY_BLOCK; CHUNK_VOLUME];
    buffer[1 + 16 * 2 + 256 * 3] = 9;
    buffer[0] = 4;
    map.fill_chunk(0, &buffer);
    let tree = map.render_tree().unwrap();
    assert_eq!(tree.get(IVec3::new(1, 2, 3)), Some(9));
    assert_eq!(tree.get(IVec3::new(0, 0, 0)), Some(1));
}

#[test]
fn map_input_queue_holds_interaction_keys() {
    let mut map = ChunkMap::new(IVec3::new(0, 0, 0), 1).unwrap();
    let queue = map.input_queue();
    assert!(queue.pop_event().is_none());
}

#[test]
fn kept_chunks_keep_their_absolute_position() {
    let mut map = ChunkMap::new(IVec3::new(3, -2, 7), 3).unwrap();
    for _ in 0..33 {
        map.generate_next_chunk(&PositionGenerator);
    }
    let before: Vec<(IVec3, u16)> = {
        let pool = map.chunks();
        (0..pool.len())
            .map(|i| {
                let d = pool.get_displacement(i);
                (IVec3::new(3 + d.x, -2 + d.y, 7 + d.z), pool.get_tree(i).unwrap().get(IVec3::new(0, 0, 0)).unwrap())
            })
            .collect()
    };
    assert_eq!(map.adapt_to_world_position(IVec3::new(4, -3, 7)), Ok(()));
    let pool = map.chunks();
    let mut kept = 0;
    for i in 0..pool.len() {
        if pool.is_chunk_in_use(i) {
            let d = pool.get_displacement(i);
            let abs = IVec3::new(4 + d.x, -3 + d.y, 7 + d.z);
            let old = before.iter().find(|(p, _)| *p == abs).expect("kept chunk existed");
            assert_eq!(pool.get_tree(i).unwrap().get(IVec3::new(0, 0, 0)), Some(old.1));
            kept += 1;
        }
    }
    assert!(kept > 0 && kept < 33);
}

#[test]
fn generator_arguments_come_from_the_slot() {
    let mut map = ChunkMap::new(IVec3::new(-5, 6, 0), 2).unwrap();
    let buffer = ChunkMap::empty_chunk_buffer();
    assert_eq!(buffer.len(), CHUNK_VOLUME);
    assert!(buffer.iter().all(|&b| b == EMPTY_BLOCK));
    map.generate_next_chunk(&FloorGenerator);
    let pool = map.chunks();
    let c = (0..pool.len()).find(|&i| pool.is_chunk_in_use(i)).unwrap();
    let d = pool.get_displacement(c);
    assert_eq!(map.chunk_world_position(c), [-5 + d.x, 6 + d.y, d.z]);
    assert_eq!(d, IVec3::new(0, 0, 0));
    map.mark_chunk_clean(c);
    assert!(!map.chunks().is_chunk_dirty(c));
}
