use voxel_world::descriptor::ChildDescriptor;
use voxel_world::octree::{SESVOctree, TreeError};
use voxel_world::vector::IVec3;

fn leaf_of(tree: &SESVOctree, p: IVec3) -> Option<ChildDescriptor> {
    let cds = tree.cds();
    let degree = tree.degree();
    let mut node = 0usize;
    let mut origin = tree.anchor_pos();
    let mut half = 1i32 << (degree - 1);
    for depth in 0..degree {
        let mut t = 0u32;
        if p.x - origin.x >= half {
            t |= 1;
            origin.x += half;
        }
        if p.y - origin.y >= half {
            t |= 2;
            origin.y += half;
        }
        if p.z - origin.z >= half {
            t |= 4;
            origin.z += half;
        }
        if !cds[node].is_child_valid(t) {
            return None;
        }
        let child = cds[node].octuple_index as usize * 8 + t as usize;
        if depth + 1 == degree {
            if child >= cds.len() {
                return Some(ChildDescriptor::new_null());
            }
            return Some(cds[child].clone());
        }
        node = child;
        half /= 2;
    }
    None
}

#[test]
fn degree_two_insert_sets_octant_zero_and_leaf_value() {
    let mut tree = SESVOctree::new(IVec3::new(0, 0, 0), 2);
    assert_eq!(tree.insert(IVec3::new(1, 1, 1), 5), Ok(()));
    let cds = tree.cds();
    assert!(cds[0].is_child_valid(0));
    for o in 1..8 {
        assert!(!cds[0].is_child_valid(o));
    }
    let inner = cds[0].octuple_index as usize * 8;
    assert!(cds[inner].is_child_valid(7));
    let leaf = cds[inner].octuple_index as usize * 8 + 7;
    assert_eq!(cds[leaf].octuple_index, 5);
    assert_eq!(tree.get(IVec3::new(1, 1, 1)), Some(5));
}

#[test]
fn insert_then_follow_path_through_packed_nodes() {
    for degree in 1..5u32 {
        let side = 1i32 << degree;
        for &(x, y, z) in &[(0, 0, 0), (side - 1, 0, side - 1), (1 % side, side - 1, 0)] {
            let mut tree = SESVOctree::new(IVec3::new(-3, 2, 10), degree);
            let p = IVec3::new(-3 + x, 2 + y, 10 + z);
            assert_eq!(tree.insert(p, 300), Ok(()));
            let leaf = leaf_of(&tree, p).expect("path exists");
            assert_eq!(leaf.octuple_index, 300);
            let packed = tree.packed_nodes();
            assert_eq!(packed.len(), tree.cds().len());
            assert_eq!(tree.get(p), Some(300));
        }
    }
}

#[test]
fn insert_keeps_existing_value() {
    let mut tree = SESVOctree::new(IVec3::new(0, 0, 0), 3);
    assert_eq!(tree.insert(IVec3::new(5, 2, 7), 9), Ok(()));
    let before: Vec<u32> = tree.packed_nodes();
    assert_eq!(tree.insert(IVec3::new(5, 2, 7), 11), Ok(()));
    assert_eq!(tree.packed_nodes(), before);
    assert_eq!(tree.get(IVec3::new(5, 2, 7)), Some(9));
}

#[test]
fn insert_leaves_other_voxels_alone() {
    let mut tree = SESVOctree::new(IVec3::new(0, 0, 0), 4);
    assert_eq!(tree.insert(IVec3::new(1, 2, 3), 1), Ok(()));
    assert_eq!(tree.insert(IVec3::new(1, 2, 2), 2), Ok(()));
    assert_eq!(tree.insert(IVec3::new(15, 15, 15), 3), Ok(()));
    assert_eq!(tree.get(IVec3::new(1, 2, 3)), Some(1));
    assert_eq!(tree.get(IVec3::new(1, 2, 2)), Some(2));
    assert_eq!(tree.get(IVec3::new(15, 15, 15)), Some(3));
    assert_eq!(tree.get(IVec3::new(1, 3, 3)), None);
    assert_eq!(tree.get(IVec3::new(0, 0, 0)), None);
}

#[test]
fn insert_no_val_twice_changes_nothing() {
    let mut tree = SESVOctree::new(IVec3::new(0, 0, 0), 3);
    assert_eq!(tree.insert_no_val(IVec3::new(3, 4, 5)), Ok(()));
    let once = tree.packed_nodes();
    assert_eq!(tree.insert_no_val(IVec3::new(3, 4, 5)), Ok(()));
    assert_eq!(tree.packed_nodes(), once);
    let leaf = leaf_of(&tree, IVec3::new(3, 4, 5)).expect("marked");
    assert!(leaf.is_no_child_valid());
    assert_eq!(tree.get(IVec3::new(3, 4, 5)), Some(u16::MAX));
}

#[test]
fn clear_leaves_one_root_octuple() {
    let mut tree = SESVOctree::new(IVec3::new(0, 0, 0), 4);
    for i in 0..16 {
        assert_eq!(tree.insert(IVec3::new(i, 15 - i, i / 2), i as u32), Ok(()));
    }
    assert!(tree.cds().len() > 8);
    tree.clear();
    assert_eq!(tree.cds().len(), 8);
    assert_eq!(tree.packed_nodes().len(), 8);
    assert_eq!(tree.get(IVec3::new(3, 12, 1)), None);
    let fresh = SESVOctree::new(IVec3::new(0, 0, 0), 4);
    assert_eq!(fresh.cds().len(), 8);
}

#[test]
fn insert_outside_the_cube_is_refused() {
    let mut tree = SESVOctree::new(IVec3::new(0, 0, 0), 2);
    let before = tree.packed_nodes();
    assert_eq!(tree.insert(IVec3::new(4, 0, 0), 1), Err(TreeError::OutOfBounds));
    assert_eq!(tree.insert(IVec3::new(0, -1, 0), 1), Err(TreeError::OutOfBounds));
    assert_eq!(tree.insert_no_val(IVec3::new(0, 0, 9)), Err(TreeError::OutOfBounds));
    assert_eq!(tree.packed_nodes(), before);
    assert!(tree.contains_point(IVec3::new(3, 3, 3)));
    assert!(!tree.contains_point(IVec3::new(3, 3, 4)));
}

#[test]
fn degree_zero_tree_stores_nothing() {
    let mut tree = SESVOctree::new(IVec3::new(1, 1, 1), 0);
    assert_eq!(tree.insert(IVec3::new(1, 1, 1), 4), Ok(()));
    assert_eq!(tree.cds().len(), 8);
    assert_eq!(tree.get(IVec3::new(1, 1, 1)), None);
}

#[test]
fn descriptor_packing_layout() {
    let mut cd = ChildDescriptor::new_null();
    assert_eq!(cd.to_u32(), 0x0000_FFFF);
    assert!(cd.is_no_child_valid());
    cd.set_child_valid(0);
    cd.set_child_valid(2);
    cd.octuple_index = 7;
    assert_eq!(cd.to_u32(), 0x0005_0007);
    assert!(cd.is_child_valid(2));
    assert!(!cd.is_child_valid(1));
    assert!(!cd.is_no_child_valid());
    cd.set_child_valid(7);
    assert_eq!(cd.valid_mask, 0x85);
    assert_eq!(cd.to_u32(), 0x0085_0007);
}

#[test]
fn degree_two_insert_packed_words() {
    let mut tree = SESVOctree::new(IVec3::new(0, 0, 0), 2);
    assert_eq!(tree.insert(IVec3::new(1, 1, 1), 5), Ok(()));
    let words = tree.packed_nodes();
    assert_eq!(words.len(), 24);
    assert_eq!(tree.cds()[0].valid_mask, 0b0000_0001);
    for (i, w) in words.iter().enumerate() {
        let expected = match i {
            0 => 0x0001_0001,
            8 => 0x0080_0002,
            23 => 0x0000_0005,
            _ => 0x0000_FFFF,
        };
        assert_eq!(*w, expected, "word {}", i);
    }
}

#[test]
fn insert_keeps_old_marks_and_appends_octuples() {
    let mut tree = SESVOctree::new(IVec3::new(0, 0, 0), 3);
    assert_eq!(tree.insert(IVec3::new(0, 0, 0), 1), Ok(()));
    let before: Vec<ChildDescriptor> = tree.cds().to_vec();
    assert_eq!(tree.insert(IVec3::new(7, 7, 7), 2), Ok(()));
    let after = tree.cds();
    assert!(after.len() >= before.len() && after.len() <= before.len() + 8 * 3);
    assert_eq!(after.len() % 8, 0);
    for i in 0..before.len() {
        assert_eq!(before[i].valid_mask & !after[i].valid_mask, 0);
        if before[i].valid_mask != 0 {
            assert_eq!(before[i].octuple_index, after[i].octuple_index);
        }
    }
}

#[test]
fn insert_no_val_makes_no_leaf_octuple() {
    let mut tree = SESVOctree::new(IVec3::new(2, 2, 2), 1);
    assert_eq!(tree.insert_no_val(IVec3::new(2, 2, 2)), Ok(()));
    assert_eq!(tree.cds().len(), 8);
    assert_eq!(tree.packed_nodes()[0], 0x0001_FFFF);
    assert_eq!(tree.get(IVec3::new(2, 2, 2)), Some(u16::MAX));
    assert_eq!(tree.get(IVec3::new(3, 2, 2)), None);

    let mut deeper = SESVOctree::new(IVec3::new(0, 0, 0), 3);
    assert_eq!(deeper.insert_no_val(IVec3::new(5, 1, 6)), Ok(()));
    assert_eq!(deeper.cds().len(), 8 + 8 * 2);
    assert_eq!(deeper.insert_no_val(IVec3::new(4, 1, 6)), Ok(()));
    assert_eq!(deeper.cds().len(), 8 + 8 * 2);
    assert_eq!(deeper.get(IVec3::new(4, 1, 6)), Some(u16::MAX));
    assert_eq!(deeper.get(IVec3::new(5, 1, 6)), Some(u16::MAX));
}

#[test]
fn value_after_occupancy_gets_its_own_octuple() {
    let mut tree = SESVOctree::new(IVec3::new(0, 0, 0), 2);
    assert_eq!(tree.insert_no_val(IVec3::new(0, 0, 0)), Ok(()));
    assert_eq!(tree.cds().len(), 16);
    assert_eq!(tree.insert(IVec3::new(1, 0, 0), 9), Ok(()));
    assert_eq!(tree.cds().len(), 24);
    assert_eq!(tree.get(IVec3::new(1, 0, 0)), Some(9));
    assert_eq!(tree.get(IVec3::new(0, 0, 0)), Some(u16::MAX));
    assert_eq!(tree.get(IVec3::new(0, 1, 0)), None);
}
