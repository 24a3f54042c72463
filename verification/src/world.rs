//! The voxel world: stored voxels, chunks and the material table.
use std::collections::HashMap;
use vstd::prelude::*;
use vstd::std_specs::hash::{group_hash_axioms, spec_hash_map_iter};
use vstd::std_specs::iter::IteratorSpec;

use crate::octree::{
    in_cube, doubled, insert_all, fine_insert_leaves, insertable_leaves, last_write, lemma_insert_growth,
    lemma_writes_read_back, levels, fine_lookup_in, tree_like, unit_cells_undivided, Leaf, Octree,
    OctreeVoxel, MAX_LEAVES,
};

verus! {

broadcast use group_hash_axioms;

pub const METER: u32 = 8;

pub const VIEWDIST: u32 = 1024;

pub const RENDERDIST: u32 = 1024;

pub const ENTITYDRAW: u32 = 512;

pub const W_WIDTH: u32 = 4096;

pub const W_HEIGHT: u32 = 4096;

/// Edge length of a chunk, in voxels.
pub const C_SIZE: u32 = 64;

/// A voxel as the world stores it: material id and colour in hundredths.
#[derive(Clone, Copy, PartialEq, Eq, Debug)]
pub struct StorageVoxel {
    pub id: u8,
    pub color: [u8; 3],
}

impl StorageVoxel {
    pub open spec fn into_normal_spec(self) -> OctreeVoxel {
        OctreeVoxel { color: self.color, lit: 0, id: self.id as u32 }
    }

    /// The octree voxel for this stored voxel (unlit).
    pub fn into_normal(&self) -> (v: OctreeVoxel)
        ensures
            v == self.into_normal_spec(),
    {
        OctreeVoxel { color: self.color, lit: 0, id: self.id as u32 }
    }
}

/// The key under which a chunk stores the voxel at `pos`: the three
/// coordinates packed into one number.
pub open spec fn spec_voxel_key(pos: [u16; 3]) -> u64 {
    (pos[0] + 0x1_0000 * pos[1] + 0x1_0000_0000 * pos[2]) as u64
}

/// Packs a voxel position into its chunk key.
pub fn voxel_key(pos: [u16; 3]) -> (k: u64)
    ensures
        k == spec_voxel_key(pos),
{
    pos[0] as u64 + 0x1_0000 * (pos[1] as u64) + 0x1_0000_0000 * (pos[2] as u64)
}

/// The position that a chunk key packs.
pub open spec fn spec_key_position(k: u64) -> [u16; 3] {
    [(k % 0x1_0000) as u16, ((k / 0x1_0000) % 0x1_0000) as u16, ((k / 0x1_0000_0000) % 0x1_0000) as u16]
}

/// Unpacks a chunk key.
pub fn key_position(k: u64) -> (pos: [u16; 3])
    ensures
        pos == spec_key_position(k),
{
    [(k % 0x1_0000) as u16, ((k / 0x1_0000) % 0x1_0000) as u16, ((k / 0x1_0000_0000) % 0x1_0000) as u16]
}

/// Packing is undone by unpacking, so no two positions share a key.
pub proof fn lemma_key_round_trip(pos: [u16; 3])
    ensures
        spec_key_position(spec_voxel_key(pos)) == pos,
{
    let k = spec_voxel_key(pos) as int;
    let x = pos[0] as int;
    let y = pos[1] as int;
    let z = pos[2] as int;
    assert(k == x + 0x1_0000 * y + 0x1_0000_0000 * z);
    assert(k % 0x1_0000 == x) by (nonlinear_arith)
        requires
            k == x + 0x1_0000 * y + 0x1_0000_0000 * z,
            0 <= x < 0x1_0000,
            0 <= y < 0x1_0000,
            0 <= z < 0x1_0000,
    ;
    assert(k / 0x1_0000 == y + 0x1_0000 * z) by (nonlinear_arith)
        requires
            k == x + 0x1_0000 * y + 0x1_0000_0000 * z,
            0 <= x < 0x1_0000,
            0 <= y < 0x1_0000,
            0 <= z < 0x1_0000,
    ;
    assert((y + 0x1_0000 * z) % 0x1_0000 == y) by (nonlinear_arith)
        requires
            0 <= y < 0x1_0000,
            0 <= z < 0x1_0000,
    ;
    assert(k / 0x1_0000_0000 == z) by (nonlinear_arith)
        requires
            k == x + 0x1_0000 * y + 0x1_0000_0000 * z,
            0 <= x < 0x1_0000,
            0 <= y < 0x1_0000,
            0 <= z < 0x1_0000,
    ;
    assert(spec_key_position(spec_voxel_key(pos)) =~= pos);
}

/// The voxels of one chunk, by packed position.
pub struct Chunk {
    pub voxels: HashMap<u64, StorageVoxel>,
}

impl Chunk {
    /// An empty chunk.
    pub fn new() -> (c: Chunk)
        ensures
            c.voxels@ == Map::<u64, StorageVoxel>::empty(),
    {
        Chunk { voxels: HashMap::new() }
    }

    /// Store `voxel` at `pos`, replacing what was there.
    pub fn insert(&mut self, pos: [u16; 3], voxel: StorageVoxel)
        ensures
            final(self).voxels@ == old(self).voxels@.insert(spec_voxel_key(pos), voxel),
    {
        let k = voxel_key(pos);
        self.voxels.insert(k, voxel);
    }

    /// The voxel stored at `pos`, if any.
    pub fn get(&self, pos: [u16; 3]) -> (v: Option<StorageVoxel>)
        ensures
            v == (if self.voxels@.contains_key(spec_voxel_key(pos)) {
                Some(self.voxels@[spec_voxel_key(pos)])
            } else {
                None
            }),
    {
        let k = voxel_key(pos);
        match self.voxels.get(&k) {
            Some(v) => Some(*v),
            None => None,
        }
    }
}

/// Material id of a palette colour.
pub open spec fn spec_id_from_color(color: [u8; 3]) -> u8 {
    let (r, g, b) = (color[0], color[1], color[2]);
    if (r, g, b) == (108u8, 108u8, 108u8) || (r, g, b) == (90u8, 90u8, 90u8) || (r, g, b) == (121u8, 121u8, 121u8) {
        1
    } else if (r, g, b) == (85u8, 59u8, 30u8) || (r, g, b) == (111u8, 67u8, 16u8) {
        2
    } else if (r, g, b) == (24u8, 105u8, 20u8) || (r, g, b) == (0u8, 131u8, 15u8) {
        3
    } else if (r, g, b) == (75u8, 26u8, 11u8) {
        4
    } else if (r, g, b) == (69u8, 40u8, 13u8) || (r, g, b) == (77u8, 50u8, 25u8) || (r, g, b) == (46u8, 24u8, 4u8) {
        5
    } else if (r, g, b) == (144u8, 46u8, 46u8) || (r, g, b) == (59u8, 59u8, 59u8) || (r, g, b) == (10u8, 10u8, 10u8) {
        6
    } else if (r, g, b) == (183u8, 183u8, 183u8) || (r, g, b) == (139u8, 139u8, 139u8) || (r, g, b) == (54u8, 54u8, 54u8) {
        7
    } else if (r, g, b) == (255u8, 231u8, 22u8) {
        8
    } else {
        1
    }
}

/// The material id that a palette colour stands for (stone when unknown).
pub fn id_from_color(color: [u8; 3]) -> (id: u8)
    ensures
        id == spec_id_from_color(color),
{
    match (color[0], color[1], color[2]) {
        (108, 108, 108) | (90, 90, 90) | (121, 121, 121) => 1,
        (85, 59, 30) | (111, 67, 16) => 2,
        (24, 105, 20) | (0, 131, 15) => 3,
        (75, 26, 11) => 4,
        (69, 40, 13) | (77, 50, 25) | (46, 24, 4) => 5,
        (144, 46, 46) | (59, 59, 59) | (10, 10, 10) => 6,
        (183, 183, 183) | (139, 139, 139) | (54, 54, 54) => 7,
        (255, 231, 22) => 8,
        _ => 1,
    }
}

/// The palette colour (before scaling) of a material id.
pub open spec fn spec_palette_color(id: u8) -> [u8; 3] {
    if id == 1 {
        [50u8, 50u8, 50u8]
    } else if id == 2 {
        [46u8, 24u8, 4u8]
    } else if id == 3 {
        [24u8, 105u8, 20u8]
    } else if id == 8 {
        [255u8, 231u8, 22u8]
    } else if id == 255 {
        [5u8, 5u8, 60u8]
    } else {
        [10u8, 10u8, 10u8]
    }
}

/// The colour that `_get_color_by_id` scales, by material id.
pub fn palette_color(id: u8) -> (c: [u8; 3])
    ensures
        c == spec_palette_color(id),
{
    let (r, g, b) = match id {
        1 => (50, 50, 50),
        2 => (46, 24, 4),
        3 => (24, 105, 20),
        8 => (255, 231, 22),
        255 => (5, 5, 60),
        _ => (10, 10, 10),
    };
    [r, g, b]
}

/// The material table agrees with the palette: the colour of material 1,
/// 3 or 8 is read back as that material; the colour given for material 2
/// is listed under material 5; the sky colour of 255 is unknown to the
/// table (stone, 1); and the fallback colour of every other id is listed
/// under material 6.
pub proof fn lemma_palette_round_trip(id: u8)
    ensures
        (id == 1 || id == 3 || id == 8) ==> spec_id_from_color(spec_palette_color(id)) == id,
        id == 2 ==> spec_id_from_color(spec_palette_color(id)) == 5,
        id == 255 ==> spec_id_from_color(spec_palette_color(id)) == 1,
        !(id == 1 || id == 2 || id == 3 || id == 8 || id == 255) ==> spec_id_from_color(spec_palette_color(id))
            == 6,
{
}

// ------------------------------------------------------------ the world

/// Chunks along each axis of the world.
pub open spec fn chunks_per_axis() -> int {
    2 * (W_WIDTH as int) / (C_SIZE as int)
}

/// `n` chunks, all empty.
pub open spec fn empty_row(r: Vec<Chunk>, n: int) -> bool {
    &&& r@.len() == n
    &&& forall|k: int| 0 <= k < n ==> #[trigger] r@[k].voxels@ == Map::<u64, StorageVoxel>::empty()
}

/// `n` rows of `n` empty chunks.
pub open spec fn empty_plane(p: Vec<Vec<Chunk>>, n: int) -> bool {
    &&& p@.len() == n
    &&& forall|j: int| 0 <= j < n ==> #[trigger] empty_row(p@[j], n)
}

/// The voxel world: a cube of chunks indexed by chunk coordinates.
pub struct WorldData {
    pub data: Vec<Vec<Vec<Chunk>>>,
}

impl WorldData {
    /// Every axis holds `chunks_per_axis()` chunks.
    pub open spec fn has_shape(self) -> bool {
        &&& self.data@.len() == chunks_per_axis()
        &&& forall|x: int|
            0 <= x < chunks_per_axis() ==> {
                &&& #[trigger] self.data@[x]@.len() == chunks_per_axis()
                &&& forall|y: int|
                    0 <= y < chunks_per_axis() ==> #[trigger] self.data@[x]@[y]@.len()
                        == chunks_per_axis()
            }
    }

    /// The voxels of chunk `(x, y, z)`.
    pub open spec fn cell(self, x: int, y: int, z: int) -> Map<u64, StorageVoxel> {
        self.data@[x]@[y]@[z].voxels@
    }

    /// A world of empty chunks.
    pub fn new() -> (w: WorldData)
        ensures
            w.has_shape(),
            forall|x: int, y: int, z: int|
                0 <= x < chunks_per_axis() && 0 <= y < chunks_per_axis() && 0 <= z < chunks_per_axis()
                    ==> #[trigger] w.cell(x, y, z) == Map::<u64, StorageVoxel>::empty(),
    {
        let n = ((W_WIDTH * 2) / C_SIZE) as usize;
        let mut data: Vec<Vec<Vec<Chunk>>> = Vec::new();
        let mut x: usize = 0;
        while x < n
            invariant
                n == chunks_per_axis(),
                x <= n,
                data@.len() == x,
                forall|i: int| 0 <= i < x ==> #[trigger] empty_plane(data@[i], n as int),
            decreases n - x,
        {
            let mut plane: Vec<Vec<Chunk>> = Vec::new();
            let mut y: usize = 0;
            while y < n
                invariant
                    n == chunks_per_axis(),
                    y <= n,
                    plane@.len() == y,
                    forall|j: int| 0 <= j < y ==> #[trigger] empty_row(plane@[j], n as int),
                decreases n - y,
            {
                let mut row: Vec<Chunk> = Vec::new();
                let mut z: usize = 0;
                while z < n
                    invariant
                        n == chunks_per_axis(),
                        z <= n,
                        row@.len() == z,
                        forall|k: int|
                            0 <= k < z ==> #[trigger] row@[k].voxels@ == Map::<u64, StorageVoxel>::empty(),
                    decreases n - z,
                {
                    row.push(Chunk::new());
                    z = z + 1;
                }
                assert(empty_row(row, n as int));
                plane.push(row);
                y = y + 1;
            }
            assert(empty_plane(plane, n as int));
            data.push(plane);
            x = x + 1;
        }
        let w = WorldData { data };
        assert forall|x: int, y: int, z: int|
            0 <= x < chunks_per_axis() && 0 <= y < chunks_per_axis() && 0 <= z < chunks_per_axis()
                implies #[trigger] w.cell(x, y, z) == Map::<u64, StorageVoxel>::empty() by {
            assert(empty_plane(w.data@[x], n as int));
            assert(empty_row(w.data@[x]@[y], n as int));
        }
        assert forall|x: int| 0 <= x < chunks_per_axis() implies {
            &&& #[trigger] w.data@[x]@.len() == chunks_per_axis()
            &&& forall|y: int|
                0 <= y < chunks_per_axis() ==> #[trigger] w.data@[x]@[y]@.len() == chunks_per_axis()
        } by {
            assert(empty_plane(w.data@[x], n as int));
            assert forall|y: int| 0 <= y < chunks_per_axis() implies #[trigger] w.data@[x]@[y]@.len()
                == chunks_per_axis() by {
                assert(empty_row(w.data@[x]@[y], n as int));
            }
        }
        w
    }

    /// Store `voxel` at the world position `pos`, in the chunk that holds it.
    pub fn store(&mut self, pos: [u32; 3], voxel: StorageVoxel)
        requires
            old(self).has_shape(),
            pos[0] < 2 * W_WIDTH,
            pos[1] < 2 * W_WIDTH,
            pos[2] < 2 * W_WIDTH,
        ensures
            final(self).has_shape(),
            forall|x: int, y: int, z: int|
                0 <= x < chunks_per_axis() && 0 <= y < chunks_per_axis() && 0 <= z < chunks_per_axis()
                    ==> #[trigger] final(self).cell(x, y, z) == if x == pos[0] / C_SIZE && y == pos[1]
                    / C_SIZE && z == pos[2] / C_SIZE {
                    old(self).cell(x, y, z).insert(
                        spec_voxel_key([pos[0] as u16, pos[1] as u16, pos[2] as u16]),
                        voxel,
                    )
                } else {
                    old(self).cell(x, y, z)
                },
    {
        let xx = (pos[0] / C_SIZE) as usize;
        let yy = (pos[1] / C_SIZE) as usize;
        let zz = (pos[2] / C_SIZE) as usize;
        let ghost old_world = *self;
        proof {
            assert(self.data@[xx as int]@.len() == chunks_per_axis());
            assert(self.data@[xx as int]@[yy as int]@.len() == chunks_per_axis());
        }
        let chunk = &mut self.data[xx][yy][zz];
        chunk.insert([pos[0] as u16, pos[1] as u16, pos[2] as u16], voxel);
        proof {
            assert forall|x: int| 0 <= x < chunks_per_axis() implies {
                &&& #[trigger] self.data@[x]@.len() == chunks_per_axis()
                &&& forall|y: int|
                    0 <= y < chunks_per_axis() ==> #[trigger] self.data@[x]@[y]@.len() == chunks_per_axis()
            } by {
                assert(old_world.data@[x]@.len() == chunks_per_axis());
                if x != xx {
                    assert(self.data@[x] == old_world.data@[x]);
                }
                assert forall|y: int| 0 <= y < chunks_per_axis() implies #[trigger] self.data@[x]@[y]@.len()
                    == chunks_per_axis() by {
                    assert(old_world.data@[x]@[y]@.len() == chunks_per_axis());
                }
            }
            assert forall|x: int, y: int, z: int|
                0 <= x < chunks_per_axis() && 0 <= y < chunks_per_axis() && 0 <= z < chunks_per_axis()
                    implies #[trigger] self.cell(x, y, z) == if x == pos[0] / C_SIZE && y == pos[1]
                    / C_SIZE && z == pos[2] / C_SIZE {
                    old_world.cell(x, y, z).insert(
                        spec_voxel_key([pos[0] as u16, pos[1] as u16, pos[2] as u16]),
                        voxel,
                    )
                } else {
                    old_world.cell(x, y, z)
                } by {
                assert(old_world.data@[x]@.len() == chunks_per_axis());
                assert(old_world.data@[x]@[y]@.len() == chunks_per_axis());
            }
        }
    }
}

// ------------------------------------------------------------ chunk window

/// Rust's integer division, which rounds toward zero.
pub open spec fn trunc_div(a: int, b: int) -> int {
    if a >= 0 {
        a / b
    } else {
        -((-a) / b)
    }
}

/// Index of the last chunk along an axis.
pub open spec fn last_chunk() -> int {
    2 * (W_WIDTH as int) / (C_SIZE as int) - 1
}

/// Chunk `offset` chunks from the camera's chunk along one axis, clamped
/// to the world.
pub open spec fn spec_chunk_axis(cam: i32, offset: i32) -> int {
    let c = trunc_div(cam as int, C_SIZE as int) + offset;
    if c > last_chunk() {
        last_chunk()
    } else if c < 0 {
        0
    } else {
        c
    }
}

/// The clamped chunk index `offset` chunks from the camera coordinate `cam`.
pub fn chunk_axis(cam: i32, offset: i32) -> (c: i32)
    requires
        -0x1000_0000 <= offset <= 0x1000_0000,
    ensures
        c == spec_chunk_axis(cam, offset),
        0 <= c <= last_chunk(),
{
    let last = ((W_WIDTH * 2) as i32 / C_SIZE as i32) - 1;
    let c = cam / (C_SIZE as i32) + offset;
    if c > last {
        last
    } else if c < 0 {
        0
    } else {
        c
    }
}

/// Chunks on each side of the camera that are turned into octree leaves.
pub open spec fn chunk_reach() -> int {
    (RENDERDIST / C_SIZE) as int
}

/// The `i`-th chunk of the window around the camera, in the order the
/// three nested loops over x, y and z visit them.
pub open spec fn visible_entry(cam: [i32; 3], i: int) -> [usize; 3] {
    let n = 2 * chunk_reach();
    [
        spec_chunk_axis(cam[0], (i / (n * n) - chunk_reach()) as i32) as usize,
        spec_chunk_axis(cam[1], ((i / n) % n - chunk_reach()) as i32) as usize,
        spec_chunk_axis(cam[2], (i % n - chunk_reach()) as i32) as usize,
    ]
}

proof fn lemma_entry_index(cam: [i32; 3], cx: int, cy: int, cz: int)
    requires
        -16 <= cx < 16,
        -16 <= cy < 16,
        -16 <= cz < 16,
    ensures
        visible_entry(cam, (cx + 16) * 1024 + (cy + 16) * 32 + (cz + 16)) == [
            spec_chunk_axis(cam[0], cx as i32) as usize,
            spec_chunk_axis(cam[1], cy as i32) as usize,
            spec_chunk_axis(cam[2], cz as i32) as usize,
        ],
{
    let i = (cx + 16) * 1024 + (cy + 16) * 32 + (cz + 16);
    assert(chunk_reach() == 16);
    assert(i / 1024 == cx + 16 && (i / 32) % 32 == cy + 16 && i % 32 == cz + 16) by (nonlinear_arith)
        requires
            i == (cx + 16) * 1024 + (cy + 16) * 32 + (cz + 16),
            -16 <= cx < 16,
            -16 <= cy < 16,
            -16 <= cz < 16,
    ;
}

/// The chunks within `RENDERDIST` of the camera, clamped to the world, in
/// visiting order (x outermost, z innermost); near the border a clamped
/// chunk appears more than once.
#[verifier::spinoff_prover]
#[verifier::rlimit(30)]
pub fn visible_chunks(cam: [i32; 3]) -> (out: Vec<[usize; 3]>)
    ensures
        out@.len() == 8 * chunk_reach() * chunk_reach() * chunk_reach(),
        forall|i: int| 0 <= i < out@.len() ==> #[trigger] out@[i] == visible_entry(cam, i),
{
    let start = -((RENDERDIST / C_SIZE) as i32);
    let end = (RENDERDIST / C_SIZE) as i32;
    let mut out: Vec<[usize; 3]> = Vec::new();
    let mut cx = start;
    while cx < end
        invariant
            start == -16,
            end == 16,
            -16 <= cx <= 16,
            out@.len() == (cx + 16) * 1024,
            forall|i: int| 0 <= i < out@.len() ==> #[trigger] out@[i] == visible_entry(cam, i),
        decreases end - cx,
    {
        let x = chunk_axis(cam[0], cx) as usize;
        let mut cy = start;
        while cy < end
            invariant
                start == -16,
                end == 16,
                -16 <= cx < 16,
                -16 <= cy <= 16,
                x == spec_chunk_axis(cam[0], cx) as usize,
                out@.len() == (cx + 16) * 1024 + (cy + 16) * 32,
                forall|i: int| 0 <= i < out@.len() ==> #[trigger] out@[i] == visible_entry(cam, i),
            decreases end - cy,
        {
            let y = chunk_axis(cam[1], cy) as usize;
            let mut cz = start;
            while cz < end
                invariant
                    start == -16,
                    end == 16,
                    -16 <= cx < 16,
                    -16 <= cy < 16,
                    -16 <= cz <= 16,
                    x == spec_chunk_axis(cam[0], cx) as usize,
                    y == spec_chunk_axis(cam[1], cy) as usize,
                    out@.len() == (cx + 16) * 1024 + (cy + 16) * 32 + (cz + 16),
                    forall|i: int| 0 <= i < out@.len() ==> #[trigger] out@[i] == visible_entry(cam, i),
                decreases end - cz,
            {
                let z = chunk_axis(cam[2], cz) as usize;
                let ghost before = out@;
                proof {
                    lemma_entry_index(cam, cx as int, cy as int, cz as int);
                }
                out.push([x, y, z]);
                proof {
                    assert forall|i: int| 0 <= i < out@.len() implies #[trigger] out@[i] == visible_entry(cam, i) by {
                        if i < before.len() {
                            assert(out@[i] == before[i]);
                        }
                    }
                }
                cz = cz + 1;
            }
            cy = cy + 1;
        }
        cx = cx + 1;
    }
    assert(chunk_reach() == 16);
    out
}

// ------------------------------------------------------------ chunk to octree

/// Whether the voxel met with `counter` voxels skipped since the last
/// insertion is inserted at resolution `lod`.
pub open spec fn spec_admits(lod: u32, counter: int) -> bool {
    if lod == 1 {
        true
    } else if lod == 2 {
        counter >= 1
    } else if lod == 4 {
        counter >= 2
    } else if lod == 8 {
        counter >= 6
    } else if lod == 16 {
        counter >= 12
    } else {
        false
    }
}

/// The thinning-out of coarse resolutions: at resolution `lod` only every
/// so many voxels of a chunk are inserted.
pub fn admits(lod: u32, counter: u64) -> (b: bool)
    ensures
        b == spec_admits(lod, counter as int),
{
    match lod {
        1 => true,
        2 => counter >= 1,
        4 => counter >= 2,
        8 => counter >= 6,
        16 => counter >= 12,
        _ => false,
    }
}

/// The octree position of a chunk key.
pub open spec fn key_point(k: u64) -> [i32; 3] {
    let p = spec_key_position(k);
    [p[0] as i32, p[1] as i32, p[2] as i32]
}

/// Leaves and counter after visiting the entries `s` of a chunk in order.
pub open spec fn chunk_fold(
    leaves: Seq<Leaf>,
    root: [i64; 3],
    width: u32,
    s: Seq<(u64, StorageVoxel)>,
    lod: u32,
) -> (Seq<Leaf>, int)
    decreases s.len(),
{
    if s.len() == 0 {
        (leaves, 0)
    } else {
        let (l, c) = chunk_fold(leaves, root, width, s.drop_last(), lod);
        let (k, v) = s.last();
        if spec_admits(lod, c) {
            (
                fine_insert_leaves(
                    l,
                    root,
                    width,
                    key_point(k),
                    v.into_normal_spec(),
                    lod,
                ),
                1,
            )
        } else {
            (l, c + 1)
        }
    }
}

/// Every how many voxels a chunk walk inserts one at resolution `lod`,
/// after the first that many have been passed over: every one from the
/// second on at 2, every second from the third on at 4, every sixth at 8,
/// every twelfth at 16 (0: none at other resolutions but 1).
pub open spec fn thinning_period(lod: u32) -> int {
    if lod == 2 {
        1
    } else if lod == 4 {
        2
    } else if lod == 8 {
        6
    } else if lod == 16 {
        12
    } else {
        0
    }
}

/// Whether the `i`-th voxel (from 0) that a chunk walk meets is inserted at
/// resolution `lod`: all of them at 1; at a coarser resolution with period
/// `t`, those whose place is a positive multiple of `t`.
pub open spec fn kept(lod: u32, i: int) -> bool {
    lod == 1 || (thinning_period(lod) > 0 && i >= thinning_period(lod) && i % thinning_period(lod) == 0)
}

/// The leaves after inserting, in order, those entries of `s` that `kept`
/// picks by their place in `s`.
pub open spec fn insert_kept(
    leaves: Seq<Leaf>,
    root: [i64; 3],
    width: u32,
    s: Seq<(u64, StorageVoxel)>,
    lod: u32,
) -> Seq<Leaf>
    decreases s.len(),
{
    if s.len() == 0 {
        leaves
    } else {
        let l = insert_kept(leaves, root, width, s.drop_last(), lod);
        if kept(lod, s.len() - 1) {
            fine_insert_leaves(l, root, width, key_point(s.last().0), s.last().1.into_normal_spec(), lod)
        } else {
            l
        }
    }
}

/// The skip counter after `k` voxels have been met.
pub open spec fn counter_after(lod: u32, k: int) -> int {
    if k == 0 {
        0
    } else if lod == 1 {
        1
    } else if thinning_period(lod) > 0 {
        (k - 1) % thinning_period(lod) + 1
    } else {
        k
    }
}

proof fn lemma_counter_step(lod: u32, k: int)
    requires
        k >= 0,
    ensures
        spec_admits(lod, counter_after(lod, k)) == kept(lod, k),
        counter_after(lod, k + 1) == if kept(lod, k) {
            1
        } else {
            counter_after(lod, k) + 1
        },
{
    let t = thinning_period(lod);
    if lod != 1 && t > 0 && k > 0 {
        assert(t == 1 || t == 2 || t == 6 || t == 12);
        assert((k - 1) % t + 1 >= t <==> k % t == 0) by (nonlinear_arith)
            requires
                t == 1 || t == 2 || t == 6 || t == 12,
                k > 0,
        ;
        assert(k % t == 0 ==> k >= t) by (nonlinear_arith)
            requires
                t >= 1,
                k > 0,
        ;
        assert(k % t != 0 ==> (k - 1) % t + 1 == k % t) by (nonlinear_arith)
            requires
                t >= 1,
                k > 0,
        ;
        assert(k % t == 0 ==> k % t + 1 == 1);
    }
}

/// Thinning by resolution: walking a chunk's entries `s` in order at
/// resolution `lod` inserts exactly the entries whose place `kept` picks,
/// in order; e.g. at resolution 2 every entry but the first, so a chunk of
/// `n >= 1` voxels gives `n - 1` insertions.
pub proof fn lemma_thinning(leaves: Seq<Leaf>, root: [i64; 3], width: u32, s: Seq<(u64, StorageVoxel)>, lod: u32)
    ensures
        chunk_fold(leaves, root, width, s, lod).0 == insert_kept(leaves, root, width, s, lod),
        chunk_fold(leaves, root, width, s, lod).1 == counter_after(lod, s.len() as int),
        forall|i: int| 0 <= i ==> (kept(2, i) <==> i >= 1),
    decreases s.len(),
{
    if s.len() > 0 {
        lemma_thinning(leaves, root, width, s.drop_last(), lod);
        lemma_counter_step(lod, s.len() - 1);
    }
}

/// Insert the voxels of `chunk` into `octree` at resolution `lod`, in the
/// order the chunk's map is walked (which the map decides), skipping voxels
/// as `admits` says.
pub fn insert_chunk_voxels(octree: &mut Octree, chunk: &Chunk, lod: u32)
    requires
        old(octree).insertable(lod),
        old(octree).leaves@.len() + 256 * chunk.voxels@.len() <= MAX_LEAVES,
    ensures
        final(octree).root == old(octree).root,
        final(octree).width == old(octree).width,
        final(octree).insertable(lod),
        exists|s: Seq<(u64, StorageVoxel)>|
            {
                &&& s.len() == chunk.voxels@.len()
                &&& s.no_duplicates()
                &&& s.to_set() == chunk.voxels@.kv_pairs()
                &&& final(octree).leaves@ == chunk_fold(
                    old(octree).leaves@,
                    old(octree).root,
                    old(octree).width,
                    s,
                    lod,
                ).0
            },
{
    let ghost l0 = octree.leaves@;
    let ghost root = octree.root;
    let ghost width = octree.width;
    let ghost order = spec_hash_map_iter(&chunk.voxels).remaining();
    let ghost mut done: int = 0;
    let mut counter: u64 = 0;
    for (k, v) in it: chunk.voxels.iter()
        invariant
            octree.root == root,
            octree.width == width,
            root == old(octree).root,
            width == old(octree).width,
            l0 == old(octree).leaves@,
            octree.insertable(lod),
            it.seq() == order,
            order == spec_hash_map_iter(&chunk.voxels).remaining(),
            order.no_duplicates(),
            order.len() == chunk.voxels@.len(),
            256 * order.len() <= MAX_LEAVES,
            done == it.index(),
            0 <= done <= order.len(),
            octree.leaves@.len() + 256 * (order.len() - done) <= MAX_LEAVES,
            (octree.leaves@, counter as int) == chunk_fold(l0, root, width, order.unref().take(done), lod),
            counter <= done,
    {
        proof {
            assert(*k == order[done].0 && *v == order[done].1);
        }
        let ghost before = order.unref().take(done);
        let pos = key_position(*k);
        if admits(lod, counter) {
            counter = 0;
            proof {
                lemma_insert_growth(octree.leaves@, root, width, key_point(*k), v.into_normal_spec(), lod);
            }
            octree.insert([pos[0] as i32, pos[1] as i32, pos[2] as i32], v.into_normal(), lod);
        }
        counter = counter + 1;
        proof {
            let after = order.unref().take(done + 1);
            assert(after.drop_last() =~= before);
            done = done + 1;
        }
    }
    proof {
        assert(done == order.len());
        let s = order.unref();
        assert(s.take(s.len() as int) =~= s);
        assert forall|i: int, j: int| 0 <= i < s.len() && 0 <= j < s.len() && i != j implies s[i]
            != s[j] by {
            assert(order[i] != order[j]);
        }
    }
}

/// The octree writes that inserting the chunk entries `s` at full
/// resolution makes.
pub open spec fn chunk_writes(s: Seq<(u64, StorageVoxel)>) -> Seq<([i32; 3], OctreeVoxel)> {
    s.map_values(|e: (u64, StorageVoxel)| (key_point(e.0), e.1.into_normal_spec()))
}

proof fn lemma_chunk_fold_full(leaves: Seq<Leaf>, root: [i64; 3], width: u32, s: Seq<(u64, StorageVoxel)>)
    ensures
        chunk_fold(leaves, root, width, s, 1).0 == insert_all(leaves, root, width, chunk_writes(s)),
    decreases s.len(),
{
    if s.len() > 0 {
        lemma_chunk_fold_full(leaves, root, width, s.drop_last());
        assert(chunk_writes(s).drop_last() =~= chunk_writes(s.drop_last()));
    }
}

/// A key that packs a position.
pub open spec fn packed(k: u64) -> bool {
    k < 0x1_0000_0000_0000
}

/// Unpacking a packed key and packing again gives the key back.
pub proof fn lemma_packed_round_trip(k: u64)
    requires
        packed(k),
    ensures
        spec_voxel_key(spec_key_position(k)) == k,
{
    let ki = k as int;
    let x = ki % 0x1_0000;
    let y = (ki / 0x1_0000) % 0x1_0000;
    let z = (ki / 0x1_0000_0000) % 0x1_0000;
    assert(ki == x + 0x1_0000 * y + 0x1_0000_0000 * z) by (nonlinear_arith)
        requires
            0 <= ki < 0x1_0000_0000_0000,
            x == ki % 0x1_0000,
            y == (ki / 0x1_0000) % 0x1_0000,
            z == (ki / 0x1_0000_0000) % 0x1_0000,
    ;
}

/// The entries of a sequence without repeats that lists a map's pairs have
/// distinct keys.
proof fn lemma_listed_keys_distinct(s: Seq<(u64, StorageVoxel)>, m: Map<u64, StorageVoxel>)
    requires
        s.no_duplicates(),
        s.to_set() == m.kv_pairs(),
    ensures
        forall|i: int, j: int| 0 <= i < s.len() && 0 <= j < s.len() && i != j ==> #[trigger] s[i].0 != #[trigger] s[j].0,
{
    assert forall|i: int, j: int| 0 <= i < s.len() && 0 <= j < s.len() && i != j implies #[trigger] s[i].0
        != #[trigger] s[j].0 by {
        assert(s.to_set().contains(s[i]));
        assert(s.to_set().contains(s[j]));
        assert(m.kv_pairs().contains(s[i]));
        assert(m.kv_pairs().contains(s[j]));
    }
}

/// Folding a list of entries with distinct packed keys inside the cube into
/// the tree at full resolution leaves each entry's voxel at its position.
proof fn lemma_entries_read_back(leaves: Seq<Leaf>, root: [i64; 3], width: u32, s: Seq<(u64, StorageVoxel)>)
    requires
        insertable_leaves(leaves, root, width, 1),
        tree_like(leaves),
        unit_cells_undivided(leaves, levels(width as int, 1)),
        leaves.len() + 256 * s.len() <= MAX_LEAVES,
        forall|i: int, j: int| 0 <= i < s.len() && 0 <= j < s.len() && i != j ==> #[trigger] s[i].0 != #[trigger] s[j].0,
        forall|i: int| 0 <= i < s.len() ==> packed(#[trigger] s[i].0),
        forall|i: int| 0 <= i < s.len() ==> in_cube(doubled(root), width as int, key_point(#[trigger] s[i].0)),
    ensures
        forall|i: int|
            0 <= i < s.len() ==> {
                let r = chunk_fold(leaves, root, width, s, 1).0;
                r[fine_lookup_in(r, root, width, key_point(#[trigger] s[i].0))].voxel == s[i].1.into_normal_spec()
            },
{
    let ws = chunk_writes(s);
    lemma_chunk_fold_full(leaves, root, width, s);
    assert forall|i: int| 0 <= i < ws.len() implies in_cube(doubled(root), width as int, #[trigger] ws[i].0) by {
        assert(ws[i].0 == key_point(s[i].0));
    }
    lemma_writes_read_back(leaves, root, width, ws);
    assert forall|i: int| 0 <= i < s.len() implies {
        let r = chunk_fold(leaves, root, width, s, 1).0;
        r[fine_lookup_in(r, root, width, key_point(#[trigger] s[i].0))].voxel == s[i].1.into_normal_spec()
    } by {
        assert(ws[i] == (key_point(s[i].0), s[i].1.into_normal_spec()));
        assert forall|j: int| i < j < ws.len() implies #[trigger] ws[j].0 != ws[i].0 by {
            assert(ws[j].0 == key_point(s[j].0));
            lemma_packed_round_trip(s[i].0);
            lemma_packed_round_trip(s[j].0);
            if key_point(s[j].0) == key_point(s[i].0) {
                assert(spec_key_position(s[j].0) =~= spec_key_position(s[i].0));
            }
        }
        assert(last_write(ws, i));
    }
}


/// Every voxel of a chunk reaches the octree: whatever order the chunk's map
/// is walked in (any listing of its pairs without repeats, as
/// `insert_chunk_voxels` promises), inserting its voxels at full resolution
/// into a tree with no subdivided one-voxel node leaves, at each key's
/// position, that key's voxel, provided every key is a packed position
/// inside the octree's cube.
pub proof fn lemma_chunk_reads_back(
    leaves: Seq<Leaf>,
    root: [i64; 3],
    width: u32,
    m: Map<u64, StorageVoxel>,
    s: Seq<(u64, StorageVoxel)>,
)
    requires
        insertable_leaves(leaves, root, width, 1),
        tree_like(leaves),
        unit_cells_undivided(leaves, levels(width as int, 1)),
        leaves.len() + 256 * s.len() <= MAX_LEAVES,
        s.no_duplicates(),
        s.to_set() == m.kv_pairs(),
        forall|k: u64| #[trigger] m.dom().contains(k) ==> packed(k) && in_cube(doubled(root), width as int, key_point(k)),
    ensures
        forall|k: u64|
            #[trigger] m.dom().contains(k) ==> {
                let r = chunk_fold(leaves, root, width, s, 1).0;
                r[fine_lookup_in(r, root, width, key_point(k))].voxel == m[k].into_normal_spec()
            },
{
    lemma_listed_keys_distinct(s, m);
    assert forall|i: int| 0 <= i < s.len() implies packed(#[trigger] s[i].0) && in_cube(
        doubled(root),
        width as int,
        key_point(s[i].0),
    ) && m.dom().contains(s[i].0) && m[s[i].0] == s[i].1 by {
        assert(s.to_set().contains(s[i]));
        assert(m.kv_pairs().contains(s[i]));
    }
    lemma_entries_read_back(leaves, root, width, s);
    assert forall|k: u64| #[trigger] m.dom().contains(k) implies {
        let r = chunk_fold(leaves, root, width, s, 1).0;
        r[fine_lookup_in(r, root, width, key_point(k))].voxel == m[k].into_normal_spec()
    } by {
        assert(m.kv_pairs().contains((k, m[k])));
        assert(s.to_set().contains((k, m[k])));
        let i = choose|i: int| 0 <= i < s.len() && s[i] == (k, m[k]);
        assert(s[i].0 == k);
    }
}

} // verus!
