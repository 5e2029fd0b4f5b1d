//! The bytes of a 16x16x16 RGBA chunk texture: four equal bytes per voxel,
//! x fastest, then y, then z.

use vstd::prelude::*;

verus! {

/// Edge of a chunk texture, in voxels.
pub const CHUNK_EDGE: usize = 16;

/// Length of a chunk texture, in bytes.
pub const CHUNK_BYTES: usize = 16384;

/// Index of the first byte of voxel (x, y, z).
pub open spec fn texel_start(x: int, y: int, z: int) -> int {
    (z * 256 + y * 16 + x) * 4
}

/// Writes `value` into the four bytes of voxel (x, y, z).
pub fn set_voxel(voxels: &mut Vec<u8>, x: usize, y: usize, z: usize, value: u8)
    requires
        x < CHUNK_EDGE && y < CHUNK_EDGE,
        texel_start(x as int, y as int, z as int) + 4 <= old(voxels)@.len(),
    ensures
        final(voxels)@.len() == old(voxels)@.len(),
        forall|i: int|
            0 <= i < old(voxels)@.len() ==> #[trigger] final(voxels)@[i] == if texel_start(x as int, y as int, z as int)
                <= i < texel_start(x as int, y as int, z as int) + 4 {
                value
            } else {
                old(voxels)@[i]
            },
{
    let len = voxels.len();
    proof {
        assert(z * 256 <= texel_start(x as int, y as int, z as int));
        assert(z * 16 * 16 == z * 256);
        assert(len <= usize::MAX);
    }
    let index = (z * 16 * 16 + y * 16 + x) * 4;
    voxels.set(index, value);
    voxels.set(index + 1, value);
    voxels.set(index + 2, value);
    voxels.set(index + 3, value);
}

/// True iff byte `i` belongs to one of the lit voxels of the sample chunk.
pub open spec fn sample_lit(i: int) -> bool {
    let t = i / 4;
    t == 8 * 256 + 8 * 16 + 8 || t == 8 * 256 + 8 * 16 + 10 || t == 8 * 256 + 10 * 16 + 8 || t == 8
        * 256 + 10 * 16 + 9 || t == 0
}

/// The sample chunk: voxels (8,8,8), (10,8,8), (8,10,8), (9,10,8) and
/// (0,0,0) set to 1, all others 0.
pub fn sample_chunk_data() -> (r: Vec<u8>)
    ensures
        r@.len() == CHUNK_BYTES,
        forall|i: int| 0 <= i < CHUNK_BYTES ==> #[trigger] r@[i] == if sample_lit(i) { 1u8 } else { 0u8 },
{
    let mut data: Vec<u8> = Vec::new();
    let mut k: usize = 0;
    while k < CHUNK_BYTES
        invariant
            k <= CHUNK_BYTES,
            data@.len() == k,
            forall|i: int| 0 <= i < k ==> #[trigger] data@[i] == 0u8,
        decreases CHUNK_BYTES - k,
    {
        data.push(0);
        k = k + 1;
    }
    set_voxel(&mut data, 8, 8, 8, 1);
    set_voxel(&mut data, 10, 8, 8, 1);
    set_voxel(&mut data, 8, 10, 8, 1);
    set_voxel(&mut data, 9, 10, 8, 1);
    set_voxel(&mut data, 0, 0, 0, 1);
    data
}

} // verus!
