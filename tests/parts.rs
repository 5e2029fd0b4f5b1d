use voxel_octree::free_ranges::FreeRanges;
use voxel_octree::geometry::{UAabb, UVec3};
use voxel_octree::octree::{remaining, slab};
use voxel_octree::texture::{self, sample_chunk_data, CHUNK_BYTES};
use voxel_octree::value::OctreeValue;

#[test]
fn adjacent_releases_merge_into_one_range() {
    let mut f = FreeRanges::new();
    f.release(3);
    f.release(4);
    assert_eq!(f.ranges, vec![(3, 5)]);
}

#[test]
fn release_between_two_ranges_joins_them() {
    let mut f = FreeRanges::new();
    f.release(3);
    f.release(5);
    assert_eq!(f.ranges, vec![(3, 4), (5, 6)]);
    f.release(4);
    assert_eq!(f.ranges, vec![(3, 6)]);
}

#[test]
fn release_just_before_a_range_extends_it() {
    let mut f = FreeRanges::new();
    f.release(1);
    f.release(7);
    f.release(6);
    assert_eq!(f.ranges, vec![(1, 2), (6, 8)]);
    f.release(9);
    assert_eq!(f.ranges, vec![(1, 2), (6, 8), (9, 10)]);
    f.release(0);
    assert_eq!(f.ranges, vec![(0, 2), (6, 8), (9, 10)]);
}

#[test]
fn take_first_consumes_the_front() {
    let mut f = FreeRanges::new();
    assert_eq!(f.take_first(), None);
    f.release(2);
    f.release(3);
    f.release(8);
    assert_eq!(f.take_first(), Some(2));
    assert_eq!(f.ranges, vec![(3, 4), (8, 9)]);
    assert_eq!(f.take_first(), Some(3));
    assert_eq!(f.ranges, vec![(8, 9)]);
    assert!(!f.is_empty());
    assert_eq!(f.take_first(), Some(8));
    assert!(f.is_empty());
}

#[test]
fn tagged_values_pack_tag_and_payload() {
    let leaf = OctreeValue::new_leaf(5);
    assert_eq!(leaf, OctreeValue(10));
    assert!(leaf.is_voxel());
    assert!(!leaf.is_pointer());
    assert_eq!(leaf.voxel_id(), Some(5));
    assert_eq!(leaf.pointer_idx(), None);
    let ptr = OctreeValue::new_pointer(3);
    assert_eq!(ptr, OctreeValue(7));
    assert!(ptr.is_pointer());
    assert_eq!(ptr.pointer_idx(), Some(3));
    assert_eq!(ptr.voxel_id(), None);
    assert_eq!(OctreeValue::new_pointer(0x7fff_ffff).to_u32(), 0x7fff_ffff);
}

#[test]
fn box_contains_its_inclusive_corners() {
    let b = UAabb::new(UVec3::new(2, 2, 2), UVec3::new(3, 5, 2));
    assert!(b.contains(UVec3::new(2, 2, 2)));
    assert!(b.contains(UVec3::new(3, 5, 2)));
    assert!(!b.contains(UVec3::new(4, 5, 2)));
    assert!(!b.contains(UVec3::new(2, 2, 3)));
    assert!(!b.contains(UVec3::new(1, 3, 2)));
}

#[test]
fn slabs_follow_the_sign_of_the_shift() {
    assert_eq!(slab(3, 16), (0, 3));
    assert_eq!(slab(-3, 16), (13, 3));
    assert_eq!(slab(0, 16), (16, 0));
    assert_eq!(slab(40, 16), (0, 16));
    assert_eq!(slab(-40, 16), (0, 16));
    assert_eq!(remaining(0, 3, 16), (3, 13));
    assert_eq!(remaining(13, 3, 16), (0, 13));
    assert_eq!(remaining(16, 0, 16), (0, 16));
}

#[test]
fn texture_voxel_fills_its_four_bytes() {
    let mut data = vec![0u8; CHUNK_BYTES];
    texture::set_voxel(&mut data, 3, 2, 1, 7);
    let start = (1 * 256 + 2 * 16 + 3) * 4;
    for (i, b) in data.iter().enumerate() {
        let expected = if i >= start && i < start + 4 { 7 } else { 0 };
        assert_eq!(*b, expected);
    }
}

#[test]
fn sample_chunk_lights_five_voxels() {
    let data = sample_chunk_data();
    assert_eq!(data.len(), 16 * 16 * 16 * 4);
    assert_eq!(data.iter().filter(|b| **b == 1).count(), 20);
    assert_eq!(data[(8 * 256 + 8 * 16 + 8) * 4], 1);
    assert_eq!(data[(8 * 256 + 10 * 16 + 9) * 4 + 3], 1);
    assert_eq!(data[0], 1);
    assert_eq!(data[4], 0);
}

#[test]
fn texture_voxel_in_a_longer_buffer() {
    let mut data = vec![9u8; CHUNK_BYTES + 8];
    texture::set_voxel(&mut data, 0, 0, 16, 2);
    assert_eq!(data.len(), CHUNK_BYTES + 8);
    assert_eq!(&data[CHUNK_BYTES..CHUNK_BYTES + 4], &[2, 2, 2, 2]);
    assert_eq!(&data[CHUNK_BYTES + 4..CHUNK_BYTES + 8], &[9, 9, 9, 9]);
    assert_eq!(data[CHUNK_BYTES - 1], 9);
}

#[test]
fn default_value_is_the_empty_leaf() {
    let v = OctreeValue::default();
    assert!(v.is_voxel());
    assert_eq!(v.voxel_id(), Some(0));
}
