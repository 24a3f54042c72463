use voxel_raymarcher::octree::{
    check_for_voxel, get_leaf, get_new_root, halving_reaches, is_pow2, lod_for_distance,
    voxel_gradient, Leaf, Octree, OctreeVoxel, SUB, U32MAX,
};

fn at(c: [f64; 3]) -> [i128; 3] {
    [(c[0] * SUB as f64) as i128, (c[1] * SUB as f64) as i128, (c[2] * SUB as f64) as i128]
}

fn stone() -> OctreeVoxel {
    OctreeVoxel { color: [10, 20, 30], lit: 0, id: 1 }
}

fn world_octree() -> Octree {
    Octree::new(8192, [4096, 4096, 4096])
}

#[test]
fn new_octree_has_root_and_eight_leaves() {
    let o = world_octree();
    assert_eq!(o.leaves.len(), 9);
    assert_eq!(o.leaves[0], Leaf::first());
    assert_eq!(o.leaves[0].children, [1, 2, 3, 4, 5, 6, 7, 8]);
    for i in 1..9 {
        assert_eq!(o.leaves[i], Leaf::empty());
        assert_eq!(o.leaves[i].children, [U32MAX; 8]);
    }
    assert_eq!(o.root, [4096, 4096, 4096]);
    assert_eq!(o.width, 8192);
}

#[test]
fn empty_voxel_is_zero() {
    let v = OctreeVoxel::empty();
    assert_eq!(v, OctreeVoxel { color: [0, 0, 0], lit: 0, id: 0 });
}

#[test]
fn get_leaf_octant_bits() {
    let c = at([10.0, 10.0, 10.0]);
    assert_eq!(get_leaf(c, [9, 10, 9]), 0);
    assert_eq!(get_leaf(c, [10, 10, 9]), 1);
    assert_eq!(get_leaf(c, [9, 9, 9]), 2);
    assert_eq!(get_leaf(c, [10, 9, 9]), 3);
    assert_eq!(get_leaf(c, [9, 10, 10]), 4);
    assert_eq!(get_leaf(c, [10, 10, 10]), 5);
    assert_eq!(get_leaf(c, [11, 9, 11]), 7);
    // a half-voxel centre
    let h = at([0.5, 0.5, 0.5]);
    assert_eq!(get_leaf(h, [0, 1, 1]), 4);
    assert_eq!(get_leaf(h, [1, 0, 0]), 3);
}

#[test]
fn get_new_root_moves_a_quarter_width() {
    let c = at([100.0, 100.0, 100.0]);
    let w = 16 * SUB as u128;
    assert_eq!(get_new_root(0, c, w), at([96.0, 104.0, 96.0]));
    assert_eq!(get_new_root(1, c, w), at([104.0, 104.0, 96.0]));
    assert_eq!(get_new_root(2, c, w), at([96.0, 96.0, 96.0]));
    assert_eq!(get_new_root(7, c, w), at([104.0, 96.0, 104.0]));
}

#[test]
fn get_new_root_at_small_and_odd_widths() {
    let s = SUB as u128;
    assert_eq!(get_new_root(0, at([4096.0; 3]), 8192 * s), at([2048.0, 6144.0, 2048.0]));
    assert_eq!(get_new_root(7, at([3.0, 1.0, 1.0]), 2 * s), at([3.5, 0.5, 1.5]));
    assert_eq!(get_new_root(3, at([0.0; 3]), s), at([0.5, -0.5, -0.5]));
    // width three: three quarters of a voxel
    assert_eq!(get_new_root(1, at([0.0; 3]), 3 * s), at([0.75, 0.75, -0.75]));
    // only the low three bits of the index count
    assert_eq!(get_new_root(9, at([0.0; 3]), 8 * s), get_new_root(1, at([0.0; 3]), 8 * s));
    // each child centre lies in its own octant
    for i in 0..8u32 {
        let r = get_new_root(i, at([5.0, 6.0, 7.0]), 3 * s);
        let p = [(r[0] / SUB) as i32, (r[1] / SUB) as i32, (r[2] / SUB) as i32];
        let _ = p;
        let c = at([5.0, 6.0, 7.0]);
        let bits = (if r[0] >= c[0] { 1 } else { 0 }) + (if r[1] >= c[1] { 0 } else { 2 })
            + (if r[2] >= c[2] { 4 } else { 0 });
        assert_eq!(bits, i);
    }
}

#[test]
fn modify_at_its_resolution_only_writes() {
    let mut o = Octree::new(3, [0, 0, 0]);
    let before = o.leaves.clone();
    o.modify(4, [0, 0, 0], stone(), at([0.0; 3]), 3 * SUB as u128, 3);
    assert_eq!(o.leaves.len(), before.len());
    assert_eq!(o.leaves[4].voxel, stone());
    assert_eq!(o.leaves[4].children, before[4].children);
    for j in 0..9 {
        if j != 4 {
            assert_eq!(o.leaves[j], before[j]);
        }
    }
    // a single undivided node
    let mut t = Octree { root: [0, 0, 0], width: 2, leaves: vec![Leaf::empty()] };
    t.modify(0, [0, 0, 0], stone(), at([0.0; 3]), 2 * SUB as u128, 2);
    assert_eq!(t.leaves, vec![Leaf { voxel: stone(), children: [U32MAX; 8] }]);
}

#[test]
fn insert_into_a_width_that_is_not_a_power_of_two() {
    // 12 -> 6 -> 3: the children of the width-6 node sit 1.5 voxels away
    let mut o = Octree::new(12, [0, 0, 0]);
    assert!(o.accepts(3));
    o.insert([1, 1, 1], stone(), 3);
    assert_eq!(o.leaves.len(), 17);
    assert!(check_for_voxel([1, 1, 1], &o));
    assert!(check_for_voxel([2, 0, 2], &o));
    assert!(!check_for_voxel([-1, 1, 1], &o));
    assert!(!check_for_voxel([4, 1, 1], &o));
}

#[test]
fn fresh_octree_reads_empty_everywhere() {
    let o = world_octree();
    assert!(!check_for_voxel([0, 0, 0], &o));
    assert!(!check_for_voxel([4096, 4096, 4096], &o));
    assert!(!check_for_voxel([8191, 17, 5000], &o));
}

#[test]
fn insert_then_read_back() {
    let mut o = world_octree();
    o.insert([100, 200, 300], stone(), 1);
    assert!(check_for_voxel([100, 200, 300], &o));
    assert!(!check_for_voxel([101, 200, 300], &o));
    assert!(!check_for_voxel([100, 199, 300], &o));
    assert!(!check_for_voxel([5000, 5000, 5000], &o));
}

#[test]
fn insert_subdivides_one_path() {
    let mut o = world_octree();
    o.insert([100, 200, 300], stone(), 1);
    // 8192 -> 1 is thirteen halvings; the first level exists already.
    assert_eq!(o.leaves.len(), 9 + 12 * 8);
    let mut o2 = o.clone();
    o2.insert([100, 200, 300], stone(), 1);
    assert_eq!(o2.leaves.len(), o.leaves.len());
}

#[test]
fn coarse_insert_covers_its_cell() {
    let mut o = world_octree();
    o.insert([100, 200, 300], stone(), 4);
    assert!(check_for_voxel([100, 200, 300], &o));
    assert!(check_for_voxel([101, 201, 301], &o));
    assert_eq!(o.leaves.len(), 9 + 10 * 8);
}

#[test]
fn later_coarse_insert_is_hidden_by_finer_detail() {
    // The read-back law needs an undivided landing node: here the second
    // insertion lands on a subdivided node and the finer voxel still answers.
    let mut o = world_octree();
    let air = OctreeVoxel { color: [1, 1, 1], lit: 0, id: 0 };
    o.insert([100, 200, 300], air, 1);
    o.insert([100, 200, 300], stone(), 2);
    assert!(!check_for_voxel([100, 200, 300], &o));
}

#[test]
fn insert_elsewhere_keeps_cells() {
    let mut o = world_octree();
    o.insert([10, 10, 10], stone(), 1);
    o.insert([8000, 8000, 8000], stone(), 1);
    assert!(check_for_voxel([10, 10, 10], &o));
    assert!(check_for_voxel([8000, 8000, 8000], &o));
    assert!(!check_for_voxel([11, 10, 10], &o));
}

#[test]
fn gradient_points_away_from_neighbours() {
    let mut o = world_octree();
    o.insert([51, 50, 50], stone(), 1);
    o.insert([50, 49, 50], stone(), 1);
    assert_eq!(voxel_gradient([50, 50, 50], &o), [-1, 1, 0]);
    o.insert([50, 50, 51], stone(), 1);
    o.insert([50, 50, 49], stone(), 1);
    assert_eq!(voxel_gradient([50, 50, 50], &o), [-1, 1, 0]);
}

#[test]
fn lod_by_distance() {
    assert_eq!(lod_for_distance(0), 1);
    assert_eq!(lod_for_distance(128), 1);
    assert_eq!(lod_for_distance(129), 2);
    assert_eq!(lod_for_distance(256), 2);
    assert_eq!(lod_for_distance(1024), 4);
    assert_eq!(lod_for_distance(2048), 8);
    assert_eq!(lod_for_distance(2049), 16);
}

#[test]
fn accepts_checks_geometry() {
    let o = world_octree();
    assert!(o.accepts(1));
    assert!(o.accepts(16));
    assert!(o.accepts(0));
    assert!(!o.accepts(3));
    assert!(Octree::new(6000, [0, 0, 0]).accepts(1));
    assert!(!Octree::new(6000, [0, 0, 0]).accepts(7));
    assert!(is_pow2(8192));
    assert!(!is_pow2(0));
    assert!(!is_pow2(12));
    assert!(halving_reaches(4096, 1));
    assert!(!halving_reaches(4096, 3));
}

#[test]
fn links_ok_finds_dangling_children() {
    let mut o = world_octree();
    assert!(o.links_ok());
    o.leaves[3].children[5] = 42;
    assert!(!o.links_ok());
    assert!(!o.accepts(1));
    o.leaves[3].children = [U32MAX; 8];
    o.leaves[0].children[2] = U32MAX;
    assert!(o.links_ok());
    assert!(!o.accepts(1));
}

#[test]
fn overwriting_leaves_no_trace() {
    let glass = OctreeVoxel { color: [90, 90, 90], lit: 1, id: 7 };
    let mut a = world_octree();
    a.insert([10, 20, 30], stone(), 1);
    a.insert([10, 20, 30], glass, 1);
    let mut b = world_octree();
    b.insert([10, 20, 30], glass, 1);
    assert_eq!(a.leaves, b.leaves);
    assert_eq!(a.root, b.root);
    assert_eq!(a.width, b.width);
}

#[test]
fn inserting_twice_is_inserting_once() {
    let mut a = world_octree();
    a.insert([7, 8, 9], stone(), 1);
    let once = a.leaves.clone();
    a.insert([7, 8, 9], stone(), 1);
    assert_eq!(a.leaves, once);
    let mut c = Octree::new(12, [0, 0, 0]);
    c.insert([1, 1, 1], stone(), 3);
    let once = c.leaves.clone();
    c.insert([1, 1, 1], stone(), 3);
    assert_eq!(c.leaves, once);
}

#[test]
fn unwritten_positions_read_empty() {
    let mut o = Octree::new(16, [8, 8, 8]);
    let written = [[0, 0, 0], [3, 4, 5], [15, 15, 15], [8, 8, 8]];
    for p in written.iter() {
        o.insert(*p, stone(), 1);
    }
    for x in 0..16 {
        for y in 0..16 {
            for z in 0..16 {
                let p = [x, y, z];
                assert_eq!(check_for_voxel(p, &o), written.contains(&p), "{:?}", p);
            }
        }
    }
}
