use voxel_world::byte_voxels::BitVoxels;
use voxel_world::input::{InputData, KeyEventQueue, PressKey};
use voxel_world::radius_grid::RadiusGrid;
use voxel_world::standard_voxel_prefab::{PrefabError, StandardVoxelPrefab, Voxel};
use voxel_world::vector::IVec3;

#[test]
fn radius_grid_layout() {
    let mut grid = RadiusGrid::new(2, 0usize);
    assert_eq!(grid.grid_slice().len(), 27);
    grid.set_value([-1, 0, 1], 5);
    assert_eq!(grid.value([-1, 0, 1]), 5);
    assert_eq!(grid.grid_slice()[0 + 1 * 3 + 2 * 9], 5);
    assert_eq!(grid.value([0, 0, 0]), 0);
    grid.set_value([1, 1, 1], 8);
    assert_eq!(grid.grid_slice()[26], 8);
}

#[test]
fn bit_voxels_set_and_get() {
    let voxels = vec![[0usize, 0, 0], [4, 2, 1], [4, 3, 1]];
    let mut bits = BitVoxels::new([5, 6, 3], &voxels);
    assert_eq!(bits.dims(), [5, 6, 3]);
    assert_eq!(bits.data.len(), 3 * 3 * 2);
    assert!(bits.get_voxel([0, 0, 0]));
    assert!(bits.get_voxel([4, 2, 1]));
    assert!(bits.get_voxel([4, 3, 1]));
    assert!(!bits.get_voxel([3, 2, 1]));
    bits.set_voxel([4, 2, 1], false);
    assert!(!bits.get_voxel([4, 2, 1]));
    assert!(bits.get_voxel([4, 3, 1]));
    bits.set_voxel([1, 1, 1], true);
    assert!(bits.get_voxel([1, 1, 1]));
    assert_eq!(bits.data[0], 0b1000_0001);
}

#[test]
fn prefab_needs_a_32_cube() {
    let voxels = vec![Voxel { x: 1, y: 2, z: 3, i: 7 }];
    let palette = [0u32; 256];
    assert!(matches!(StandardVoxelPrefab::new([16, 32, 32], &voxels, palette), Err(PrefabError::Dimensions)));
    let outside = vec![Voxel { x: 40, y: 0, z: 0, i: 1 }];
    assert!(matches!(StandardVoxelPrefab::new([32, 32, 32], &outside, palette), Err(PrefabError::VoxelOutside)));
}

#[test]
fn prefab_volumes() {
    let voxels = vec![Voxel { x: 1, y: 2, z: 3, i: 7 }, Voxel { x: 31, y: 0, z: 0, i: 2 }, Voxel { x: 1, y: 2, z: 3, i: 9 }];
    let mut palette = [0u32; 256];
    palette[7] = 0xff00ff00;
    let prefab = StandardVoxelPrefab::new([32, 32, 32], &voxels, palette).ok().unwrap();
    let vol = prefab.palette_volume();
    assert_eq!(vol.len(), 32768);
    assert_eq!(vol[1 + 2 * 32 + 3 * 1024], 9);
    assert_eq!(vol[31], 2);
    assert_eq!(vol[0], 0);
    assert_eq!(prefab.palette()[7], 0xff00ff00);
    let tree = prefab.tree_volume().ok().unwrap();
    assert_eq!(tree.degree(), 5);
    assert_eq!(tree.get(IVec3::new(1, 2, 3)), Some(u16::MAX));
    assert_eq!(tree.get(IVec3::new(31, 0, 0)), Some(u16::MAX));
    assert_eq!(tree.get(IVec3::new(2, 2, 3)), None);
}

#[test]
fn input_defaults_and_events() {
    let mut data = InputData::new();
    assert!(!data.pressed("forward"));
    assert!(!data.pressed("interact_1"));
    let mut queue = KeyEventQueue::new(vec!["forward", "interact_1", "forward"]);
    data.update_pressed(&PressKey::KeyScancode(18), true, &mut queue);
    assert!(data.pressed("forward"));
    let event = queue.pop_event().expect("one event");
    assert_eq!(event.0, vec![String::from("forward")]);
    assert!(event.1);
    data.update_pressed(&PressKey::KeyScancode(72), true, &mut queue);
    assert!(queue.pop_event().is_none());
    data.update_pressed(&PressKey::KeyScancode(18), false, &mut queue);
    assert!(queue.pop_event().is_none());
    assert!(data.pressed("forward"));
    data.update_pressed(&PressKey::KeyScancode(72), false, &mut queue);
    assert!(!data.pressed("forward"));
    let event = queue.pop_event().expect("release");
    assert!(!event.1);
    data.update_pressed(&PressKey::KeyScancode(999), true, &mut queue);
    data.update_pressed(&PressKey::KeyScancode(57), true, &mut queue);
    assert!(data.pressed("high"));
    assert!(queue.pop_event().is_none());
    data.update_pressed(&PressKey::MouseButton(1), true, &mut queue);
    data.update_pressed(&PressKey::MouseButton(1), false, &mut queue);
    let events = queue.pop_events(5);
    assert_eq!(events.len(), 2);
    assert_eq!(events[0].0, vec![String::from("interact_1")]);
    assert!(events[0].1);
    assert!(!events[1].1);
}
