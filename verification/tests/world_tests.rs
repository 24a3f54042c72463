use voxel_raymarcher::octree::{check_for_voxel, Octree, OctreeVoxel};
use voxel_raymarcher::world::{
    admits, chunk_axis, id_from_color, insert_chunk_voxels, key_position, palette_color,
    visible_chunks, voxel_key, Chunk, StorageVoxel, WorldData, C_SIZE, W_WIDTH,
};

#[test]
fn material_ids_of_palette_colours() {
    assert_eq!(id_from_color([108, 108, 108]), 1);
    assert_eq!(id_from_color([90, 90, 90]), 1);
    assert_eq!(id_from_color([111, 67, 16]), 2);
    assert_eq!(id_from_color([0, 131, 15]), 3);
    assert_eq!(id_from_color([75, 26, 11]), 4);
    assert_eq!(id_from_color([46, 24, 4]), 5);
    assert_eq!(id_from_color([10, 10, 10]), 6);
    assert_eq!(id_from_color([54, 54, 54]), 7);
    assert_eq!(id_from_color([255, 231, 22]), 8);
    assert_eq!(id_from_color([1, 2, 3]), 1);
}

#[test]
fn palette_colours_of_ids() {
    assert_eq!(palette_color(1), [50, 50, 50]);
    assert_eq!(palette_color(2), [46, 24, 4]);
    assert_eq!(palette_color(3), [24, 105, 20]);
    assert_eq!(palette_color(8), [255, 231, 22]);
    assert_eq!(palette_color(255), [5, 5, 60]);
    assert_eq!(palette_color(7), [10, 10, 10]);
}

#[test]
fn into_normal_keeps_id_and_colour() {
    let s = StorageVoxel { id: 5, color: [1, 2, 3] };
    assert_eq!(s.into_normal(), OctreeVoxel { color: [1, 2, 3], lit: 0, id: 5 });
}

#[test]
fn keys_round_trip() {
    for p in [[0u16, 0, 0], [1, 2, 3], [65535, 65535, 65535], [8191, 0, 77]] {
        assert_eq!(key_position(voxel_key(p)), p);
    }
    assert_eq!(voxel_key([1, 2, 3]), 1 + 2 * 65536 + 3 * 4294967296);
}

#[test]
fn chunk_insert_replaces() {
    let mut c = Chunk::new();
    assert_eq!(c.get([1, 2, 3]), None);
    c.insert([1, 2, 3], StorageVoxel { id: 1, color: [0, 0, 0] });
    c.insert([1, 2, 3], StorageVoxel { id: 2, color: [9, 9, 9] });
    c.insert([3, 2, 1], StorageVoxel { id: 3, color: [0, 0, 0] });
    assert_eq!(c.get([1, 2, 3]), Some(StorageVoxel { id: 2, color: [9, 9, 9] }));
    assert_eq!(c.get([3, 2, 1]).map(|v| v.id), Some(3));
    assert_eq!(c.voxels.len(), 2);
}

#[test]
fn world_store_goes_to_its_chunk() {
    let mut w = WorldData::new();
    let n = (2 * W_WIDTH / C_SIZE) as usize;
    assert_eq!(w.data.len(), n);
    assert_eq!(w.data[0].len(), n);
    assert_eq!(w.data[n - 1][n - 1].len(), n);
    w.store([130, 5, 8191], StorageVoxel { id: 4, color: [1, 1, 1] });
    assert_eq!(w.data[2][0][127].get([130, 5, 8191]).map(|v| v.id), Some(4));
    assert_eq!(w.data[2][0][126].voxels.len(), 0);
}

#[test]
fn chunk_axis_clamps() {
    assert_eq!(chunk_axis(4096, 0), 64);
    assert_eq!(chunk_axis(4096, -16), 48);
    assert_eq!(chunk_axis(100, -16), 0);
    assert_eq!(chunk_axis(8190, 15), 127);
    assert_eq!(chunk_axis(-63, 1), 1);
    assert_eq!(chunk_axis(-64, 1), 0);
}

#[test]
fn visible_chunks_in_loop_order() {
    let v = visible_chunks([4096, 4096, 4096]);
    assert_eq!(v.len(), 32 * 32 * 32);
    assert_eq!(v[0], [48, 48, 48]);
    assert_eq!(v[1], [48, 48, 49]);
    assert_eq!(v[32], [48, 49, 48]);
    assert_eq!(v[1024], [49, 48, 48]);
    assert_eq!(v[32767], [79, 79, 79]);
    let edge = visible_chunks([0, 0, 0]);
    assert_eq!(edge[0], [0, 0, 0]);
    assert_eq!(edge[1], [0, 0, 0]);
}

#[test]
fn thinning_by_resolution() {
    assert!(admits(1, 0));
    assert!(!admits(2, 0));
    assert!(admits(2, 1));
    assert!(!admits(4, 1));
    assert!(admits(4, 2));
    assert!(!admits(8, 5));
    assert!(admits(8, 6));
    assert!(!admits(16, 11));
    assert!(admits(16, 12));
    assert!(!admits(3, 100));
}

#[test]
fn chunk_voxels_reach_the_octree() {
    let mut c = Chunk::new();
    c.insert([10, 20, 30], StorageVoxel { id: 3, color: [5, 5, 5] });
    c.insert([11, 20, 30], StorageVoxel { id: 7, color: [5, 5, 5] });
    let mut o = Octree::new(8192, [4096, 4096, 4096]);
    insert_chunk_voxels(&mut o, &c, 1);
    assert!(check_for_voxel([10, 20, 30], &o));
    assert!(check_for_voxel([11, 20, 30], &o));
    assert!(!check_for_voxel([12, 20, 30], &o));
}

#[test]
fn unknown_resolution_inserts_nothing() {
    let mut c = Chunk::new();
    c.insert([10, 20, 30], StorageVoxel { id: 3, color: [5, 5, 5] });
    let mut o = Octree::new(8192, [4096, 4096, 4096]);
    insert_chunk_voxels(&mut o, &c, 32);
    assert_eq!(o.leaves.len(), 9);
}
