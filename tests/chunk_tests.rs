use voxel_world::chunk_generators::{coord_to_index, index_to_coord};
use voxel_world::chunk_map::ChunkMap;
use voxel_world::displaced_chunks::{ChunkError, DisplacedChunks};
use voxel_world::vector::IVec3;

fn ball(r: usize) -> Vec<IVec3> {
    ChunkMap::radius_displacement_set(r)
}

fn in_ball(v: IVec3, reach: i64) -> bool {
    (v.x as i64) * (v.x as i64) + (v.y as i64) * (v.y as i64) + (v.z as i64) * (v.z as i64) <= reach * reach
}

#[test]
fn radius_sets_have_expected_sizes_and_norms() {
    assert_eq!(ball(1).len(), 1);
    assert_eq!(ball(2).len(), 7);
    assert_eq!(ball(3).len(), 33);
    for r in 1..6usize {
        let set = ball(r);
        for v in &set {
            assert!(in_ball(*v, r as i64 - 1));
        }
        for i in 0..set.len() {
            for j in 0..i {
                assert_ne!(set[i], set[j]);
            }
        }
        let pool = DisplacedChunks::new(set.clone());
        assert_eq!(pool.len(), set.len());
    }
}

#[test]
fn pool_dedups_its_displacement_set() {
    let set = vec![IVec3::new(0, 0, 0), IVec3::new(1, 0, 0), IVec3::new(0, 0, 0)];
    let pool = DisplacedChunks::new(set);
    assert_eq!(pool.len(), 2);
}

#[test]
fn displace_along_x_on_radius_two() {
    let set = ball(2);
    let mut pool = DisplacedChunks::new(set.clone());
    let prior: Vec<IVec3> = (0..pool.len()).map(|i| pool.get_displacement(i)).collect();
    let delta = IVec3::new(1, 0, 0);
    let invalid = pool.displace(delta);
    let expected: Vec<usize> = (0..prior.len())
        .filter(|&i| {
            let moved = IVec3::new(prior[i].x + 1, prior[i].y, prior[i].z);
            !set.contains(&moved)
        })
        .collect();
    assert_eq!(invalid, expected);
    assert_eq!(invalid.len(), 5);
    let shifted: Vec<IVec3> = prior.iter().map(|d| IVec3::new(d.x + 1, d.y, d.z)).collect();
    let freed: Vec<IVec3> = set.iter().filter(|d| !shifted.contains(d)).cloned().collect();
    assert_eq!(freed.len(), invalid.len());
    for &i in &invalid {
        assert!(!pool.is_chunk_in_use(i));
        assert!(freed.contains(&pool.get_displacement(i)));
    }
    for i in 0..pool.len() {
        if !invalid.contains(&i) {
            assert_eq!(pool.get_displacement(i), shifted[i]);
        }
    }
    let mut now: Vec<IVec3> = (0..pool.len()).map(|i| pool.get_displacement(i)).collect();
    let mut all = set.clone();
    now.sort_by_key(|v| (v.x, v.y, v.z));
    all.sort_by_key(|v| (v.x, v.y, v.z));
    assert_eq!(now, all);
}

#[test]
fn claims_go_nearest_first_until_full() {
    let mut pool = DisplacedChunks::new(ball(2));
    let first = pool.use_chunk().expect("a slot");
    assert_eq!(pool.get_displacement(first), IVec3::new(0, 0, 0));
    assert!(pool.is_chunk_in_use(first));
    assert!(pool.is_chunk_dirty(first));
    for _ in 0..6 {
        let c = pool.use_chunk().expect("a slot");
        let d = pool.get_displacement(c);
        assert_eq!(d.x.abs() + d.y.abs() + d.z.abs(), 1);
    }
    assert_eq!(pool.use_chunk(), None);
}

#[test]
fn in_use_slots_stay_distinct_across_moves() {
    let mut pool = DisplacedChunks::new(ball(3));
    for _ in 0..10 {
        pool.use_chunk();
    }
    let moves = [IVec3::new(1, 0, 0), IVec3::new(0, -1, 1), IVec3::new(-2, 0, 0), IVec3::new(5, 5, 5)];
    for m in moves.iter() {
        pool.displace(*m);
        pool.use_chunk();
        let used: Vec<IVec3> =
            (0..pool.len()).filter(|&i| pool.is_chunk_in_use(i)).map(|i| pool.get_displacement(i)).collect();
        let set = ball(3);
        for i in 0..used.len() {
            assert!(set.contains(&used[i]));
            for j in 0..i {
                assert_ne!(used[i], used[j]);
            }
        }
    }
}

#[test]
fn insert_block_needs_a_slot_in_use() {
    let mut pool = DisplacedChunks::new(ball(2));
    assert_eq!(pool.insert_block(0, 3, IVec3::new(1, 1, 1)), Err(ChunkError::NotInUse));
    assert!(!pool.is_chunk_dirty(0));
    let c = pool.use_chunk().unwrap();
    pool.mark_clean(c);
    assert!(!pool.is_chunk_dirty(c));
    assert_eq!(pool.insert_block(c, 3, IVec3::new(1, 1, 1)), Ok(()));
    assert!(pool.is_chunk_dirty(c));
    assert_eq!(pool.insert_block(c, 3, IVec3::new(16, 1, 1)), Err(ChunkError::OutOfBounds));
    let tree = pool.get_tree(c).unwrap();
    assert_eq!(tree.get(IVec3::new(1, 1, 1)), Some(3));
    let unused = (0..pool.len()).find(|&i| !pool.is_chunk_in_use(i)).unwrap();
    assert!(pool.get_tree(unused).is_none());
}

#[test]
fn chunk_index_round_trip() {
    let dims = [16usize, 16, 16];
    assert_eq!(coord_to_index(&dims, [1, 2, 3]), 1 + 32 + 768);
    assert_eq!(index_to_coord(&dims, 801), [1, 2, 3]);
    let dims = [5usize, 6, 3];
    for i in 0..90 {
        let c = index_to_coord(&dims, i);
        assert!(c[0] < 5 && c[1] < 6 && c[2] < 3);
        assert_eq!(coord_to_index(&dims, c), i);
    }
    assert_eq!(index_to_coord(&dims, 37), [2, 1, 1]);
}

#[test]
fn claimed_tree_is_one_null_octuple_and_errors_keep_it() {
    let mut pool = DisplacedChunks::new(ball(1));
    let c = pool.use_chunk().unwrap();
    assert_eq!(pool.insert_block(c, 7, IVec3::new(2, 3, 4)), Ok(()));
    pool.displace(IVec3::new(5, 0, 0));
    let c = pool.use_chunk().unwrap();
    let tree = pool.get_tree(c).unwrap();
    assert_eq!(tree.packed_nodes(), vec![0x0000_FFFFu32; 8]);
    let before = tree.packed_nodes();
    assert_eq!(pool.insert_block(c, 7, IVec3::new(-1, 3, 4)), Err(ChunkError::OutOfBounds));
    assert_eq!(pool.get_tree(c).unwrap().packed_nodes(), before);
}
