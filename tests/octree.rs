use voxel_octree::error::OctreeError;
use voxel_octree::geometry::{IVec3, UVec3};
use voxel_octree::octree::Octree;

fn read(tree: &Octree, x: u32, y: u32, z: u32) -> Option<u32> {
    let mut cursor = tree.voxel_cursor(UVec3::new(x, y, z));
    cursor.move_to_leaf();
    assert!(cursor.is_leaf());
    cursor.value().voxel_id()
}

fn id_of(x: u32, y: u32, z: u32) -> u32 {
    1 + x + 8 * y + 64 * z
}

fn filled_cube_of_eight() -> Octree {
    let mut tree = Octree::new(8).unwrap();
    for x in 0..8 {
        for y in 0..8 {
            for z in 0..8 {
                tree.set_voxel(UVec3::new(x, y, z), id_of(x, y, z)).unwrap();
            }
        }
    }
    tree
}

#[test]
fn minimal_fixture_reads_back() {
    let mut tree = Octree::new(16).unwrap();
    tree.set_voxel(UVec3::new(8, 8, 8), 1).unwrap();
    let mut cursor = tree.voxel_cursor(UVec3::new(8, 8, 8));
    cursor.move_to_leaf();
    assert!(cursor.value().is_voxel());
    assert_eq!(cursor.value().voxel_id(), Some(1));
    let mut other = tree.voxel_cursor(UVec3::new(9, 8, 8));
    other.move_to_leaf();
    assert!(other.value().is_voxel());
    assert_eq!(other.value().voxel_id(), Some(0));
}

#[test]
fn smallest_tree_holds_two_voxels_in_one_node() {
    let mut tree = Octree::new(2).unwrap();
    tree.set_voxel(UVec3::new(0, 0, 0), 5).unwrap();
    tree.set_voxel(UVec3::new(1, 1, 1), 7).unwrap();
    assert_eq!(read(&tree, 0, 0, 0), Some(5));
    assert_eq!(read(&tree, 1, 1, 1), Some(7));
    assert_eq!(read(&tree, 1, 0, 0), Some(0));
    assert_eq!(tree.live_node_count(), 1);
    let mut cursor = tree.voxel_cursor(UVec3::new(1, 1, 1));
    cursor.move_to_leaf();
    assert_eq!(cursor.quadrant_size(), 1);
}

#[test]
fn write_then_read_keeps_other_voxels() {
    let mut tree = Octree::new(8).unwrap();
    let writes = [(3, 1, 4, 9), (0, 0, 0, 2), (7, 7, 7, 3), (3, 1, 5, 9), (3, 1, 4, 11)];
    for &(x, y, z, v) in writes.iter() {
        tree.set_voxel(UVec3::new(x, y, z), v).unwrap();
        assert_eq!(read(&tree, x, y, z), Some(v));
    }
    for x in 0..8 {
        for y in 0..8 {
            for z in 0..8 {
                let expected = match (x, y, z) {
                    (3, 1, 4) => 11,
                    (0, 0, 0) => 2,
                    (7, 7, 7) => 3,
                    (3, 1, 5) => 9,
                    _ => 0,
                };
                assert_eq!(read(&tree, x, y, z), Some(expected));
            }
        }
    }
}

#[test]
fn full_volume_of_distinct_ids_reads_back() {
    let tree = filled_cube_of_eight();
    for x in 0..8 {
        for y in 0..8 {
            for z in 0..8 {
                assert_eq!(read(&tree, x, y, z), Some(id_of(x, y, z)));
            }
        }
    }
}

#[test]
fn largest_id_reads_back() {
    let mut tree = Octree::new(4).unwrap();
    tree.set_voxel(UVec3::new(3, 0, 2), 0x7fff_ffff).unwrap();
    assert_eq!(read(&tree, 3, 0, 2), Some(0x7fff_ffff));
}

#[test]
fn repeated_write_allocates_nothing() {
    let mut tree = Octree::new(16).unwrap();
    tree.set_voxel(UVec3::new(5, 9, 2), 4).unwrap();
    let size = tree.pool_size();
    let live = tree.live_node_count();
    let free = tree.free_ranges();
    tree.set_voxel(UVec3::new(5, 9, 2), 4).unwrap();
    assert_eq!(tree.pool_size(), size);
    assert_eq!(tree.live_node_count(), live);
    assert_eq!(tree.free_ranges(), free);
}

#[test]
fn identical_subtrees_share_storage() {
    let mut tree = Octree::new(8).unwrap();
    let ids = [3, 1, 4, 1, 5, 9, 2, 6];
    let mut k = 0;
    for x in 0..2 {
        for y in 0..2 {
            for z in 0..2 {
                tree.set_voxel(UVec3::new(x, y, z), ids[k]).unwrap();
                k += 1;
            }
        }
    }
    let one_cube = tree.live_node_count();
    k = 0;
    for x in 4..6 {
        for y in 0..2 {
            for z in 0..2 {
                tree.set_voxel(UVec3::new(x, y, z), ids[k]).unwrap();
                k += 1;
            }
        }
    }
    assert!(tree.live_node_count() < 2 * one_cube);
}

#[test]
fn restoring_a_voxel_reclaims_nodes() {
    let mut tree = Octree::new(16).unwrap();
    let p = UVec3::new(12, 3, 7);
    tree.set_voxel(p, 8).unwrap();
    tree.set_voxel(p, 0).unwrap();
    assert_eq!(read(&tree, 12, 3, 7), Some(0));
    let size = tree.pool_size();
    let live = tree.live_node_count();
    let free = tree.free_ranges();
    tree.set_voxel(p, 8).unwrap();
    assert_eq!(read(&tree, 12, 3, 7), Some(8));
    tree.set_voxel(p, 0).unwrap();
    assert_eq!(tree.pool_size(), size);
    assert_eq!(tree.live_node_count(), live);
    assert_eq!(tree.free_ranges(), free);
}

#[test]
fn free_list_stays_merged_in_a_tree() {
    let mut tree = Octree::new(16).unwrap();
    for i in 0..16 {
        tree.set_voxel(UVec3::new(i, 15 - i, i / 2), i + 1).unwrap();
    }
    for i in 0..16 {
        tree.set_voxel(UVec3::new(i, 15 - i, i / 2), 0).unwrap();
    }
    let free = tree.free_ranges();
    assert!(!free.is_empty());
    for w in free.windows(2) {
        assert!(w[0].1 < w[1].0);
    }
    for i in 0..16 {
        assert_eq!(read(&tree, i, 15 - i, i / 2), Some(0));
    }
}

#[test]
fn moving_window_forward_clears_leading_slab() {
    let mut tree = filled_cube_of_eight();
    tree.set_position(IVec3::new(2, 0, 0)).unwrap();
    assert_eq!(tree.get_position(), IVec3::new(2, 0, 0));
    for x in 0..8 {
        for y in 0..8 {
            for z in 0..8 {
                let expected = if x < 2 { 0 } else { id_of(x, y, z) };
                assert_eq!(read(&tree, x, y, z), Some(expected));
            }
        }
    }
}

#[test]
fn moving_window_back_clears_trailing_slab() {
    let mut tree = filled_cube_of_eight();
    tree.set_position(IVec3::new(0, -3, 0)).unwrap();
    assert_eq!(tree.get_position(), IVec3::new(0, -3, 0));
    for x in 0..8 {
        for y in 0..8 {
            for z in 0..8 {
                let expected = if y >= 5 { 0 } else { id_of(x, y, z) };
                assert_eq!(read(&tree, x, y, z), Some(expected));
            }
        }
    }
}

#[test]
fn moving_window_on_three_axes_clears_three_slabs() {
    let mut tree = filled_cube_of_eight();
    tree.set_position(IVec3::new(1, -2, 3)).unwrap();
    for x in 0..8 {
        for y in 0..8 {
            for z in 0..8 {
                let gone = x < 1 || y >= 6 || z < 3;
                let expected = if gone { 0 } else { id_of(x, y, z) };
                assert_eq!(read(&tree, x, y, z), Some(expected));
            }
        }
    }
}

#[test]
fn moving_window_past_its_edge_clears_everything() {
    let mut tree = filled_cube_of_eight();
    tree.set_position(IVec3::new(0, 0, -20)).unwrap();
    for x in 0..8 {
        for y in 0..8 {
            for z in 0..8 {
                assert_eq!(read(&tree, x, y, z), Some(0));
            }
        }
    }
}

#[test]
fn moving_window_by_nothing_keeps_everything() {
    let mut tree = filled_cube_of_eight();
    tree.set_position(IVec3::new(0, 0, 0)).unwrap();
    assert_eq!(read(&tree, 0, 0, 0), Some(id_of(0, 0, 0)));
    assert_eq!(read(&tree, 7, 7, 7), Some(id_of(7, 7, 7)));
}

#[test]
fn sizes_that_are_not_powers_of_two_are_refused() {
    assert_eq!(Octree::new(0).err(), Some(OctreeError::InvalidSize));
    assert_eq!(Octree::new(1).err(), Some(OctreeError::InvalidSize));
    assert_eq!(Octree::new(12).err(), Some(OctreeError::InvalidSize));
    assert_eq!(Octree::new(u32::MAX).err(), Some(OctreeError::InvalidSize));
    assert!(Octree::new(2).is_ok());
    assert!(Octree::new(0x8000_0000).is_ok());
}

#[test]
fn new_tree_is_empty_at_the_origin() {
    let tree = Octree::new(4).unwrap();
    assert_eq!(tree.get_position(), IVec3::new(0, 0, 0));
    assert_eq!(tree.pool_size(), 1);
    assert_eq!(tree.live_node_count(), 1);
    assert!(tree.free_ranges().is_empty());
    assert_eq!(read(&tree, 3, 2, 1), Some(0));
}

#[test]
fn cursor_moves_and_climbs() {
    let tree = filled_cube_of_eight();
    let mut cursor = tree.voxel_cursor(UVec3::new(0, 0, 0));
    cursor.move_to_leaf();
    assert_eq!(cursor.quadrant_size(), 1);
    cursor.move_by(IVec3::new(1, 0, 0));
    assert_eq!(cursor.pos(), UVec3::new(1, 0, 0));
    cursor.move_to_leaf();
    assert_eq!(cursor.value().voxel_id(), Some(id_of(1, 0, 0)));
    cursor.move_by(IVec3::new(5, 7, 3));
    assert_eq!(cursor.quadrant_size(), 4);
    assert!(cursor.value().is_pointer());
    cursor.move_to_leaf();
    assert_eq!(cursor.value().voxel_id(), Some(id_of(6, 7, 3)));
}

#[test]
fn mutable_cursor_writes_along_a_row() {
    let mut tree = Octree::new(8).unwrap();
    {
        let mut cursor = tree.voxel_cursor_mut(UVec3::new(2, 3, 0));
        for z in 0..8 {
            cursor.set_voxel(z + 20).unwrap();
            assert!(cursor.is_leaf());
            assert_eq!(cursor.value().voxel_id(), Some(z + 20));
            assert_eq!(cursor.pos(), UVec3::new(2, 3, z));
            if z < 7 {
                cursor.move_by(IVec3::new(0, 0, 1));
            }
        }
        cursor.move_to_leaf();
        assert_eq!(cursor.quadrant_size(), 1);
    }
    for z in 0..8 {
        assert_eq!(read(&tree, 2, 3, z), Some(z + 20));
    }
    assert_eq!(read(&tree, 2, 4, 0), Some(0));
}

#[test]
fn fresh_cursor_starts_at_half_the_edge() {
    let tree = Octree::new(32).unwrap();
    let cursor = tree.voxel_cursor(UVec3::new(31, 0, 17));
    assert_eq!(cursor.quadrant_size(), 16);
}

#[test]
fn zero_move_keeps_the_cursor() {
    let tree = filled_cube_of_eight();
    let mut cursor = tree.voxel_cursor(UVec3::new(5, 2, 6));
    cursor.move_to_leaf();
    let before = (cursor.quadrant_size(), cursor.value(), cursor.pos());
    cursor.move_by(IVec3::new(0, 0, 0));
    assert_eq!((cursor.quadrant_size(), cursor.value(), cursor.pos()), before);
}
