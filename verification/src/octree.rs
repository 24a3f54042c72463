//! The leaf-array octree that the ray marcher reads.
//!
//! Coordinates are whole voxel units. A node with centre `c` and width `w`
//! covers `[c - w/2, c + w/2)` on each axis; the octant of a position is a
//! three-bit number whose bit 0 says "x at or right of the centre", bit 1
//! says "y below the centre" and bit 2 says "z at or beyond the centre".
use vstd::prelude::*;

verus! {

/// Child index that marks "no child".
pub const U32MAX: u32 = 4294967295;

/// Upper bound on the number of leaves an octree may hold before an
/// insertion, so that every new leaf index stays below [`U32MAX`].
pub const MAX_LEAVES: usize = 0xFFFF_0000;

/// What a leaf stores: the voxel's colour (in hundredths, as the world
/// stores it), whether it is lit, and its material id (0 means "no voxel").
#[derive(Clone, Copy, PartialEq, Eq, Debug)]
pub struct OctreeVoxel {
    pub color: [u8; 3],
    pub lit: u32,
    pub id: u32,
}

impl OctreeVoxel {
    pub open spec fn spec_empty() -> OctreeVoxel {
        OctreeVoxel { color: [0u8, 0u8, 0u8], lit: 0, id: 0 }
    }

    /// The voxel of an empty cell.
    pub fn empty() -> (v: OctreeVoxel)
        ensures
            v == OctreeVoxel::spec_empty(),
    {
        OctreeVoxel { color: [0, 0, 0], lit: 0, id: 0 }
    }
}

/// One node of the octree: its voxel and the indices of its eight children
/// (all [`U32MAX`] when the node has not been subdivided).
#[derive(Clone, Copy, PartialEq, Eq, Debug)]
pub struct Leaf {
    pub voxel: OctreeVoxel,
    pub children: [u32; 8],
}

impl Leaf {
    pub open spec fn spec_empty() -> Leaf {
        Leaf {
            voxel: OctreeVoxel::spec_empty(),
            children: [U32MAX, U32MAX, U32MAX, U32MAX, U32MAX, U32MAX, U32MAX, U32MAX],
        }
    }

    pub open spec fn spec_first() -> Leaf {
        Leaf { voxel: OctreeVoxel::spec_empty(), children: [1u32, 2, 3, 4, 5, 6, 7, 8] }
    }

    /// The root of a fresh octree, whose children are leaves 1 to 8.
    pub fn first() -> (l: Leaf)
        ensures
            l == Leaf::spec_first(),
    {
        Leaf { voxel: OctreeVoxel::empty(), children: [1, 2, 3, 4, 5, 6, 7, 8] }
    }

    /// A leaf with no voxel and no children.
    pub fn empty() -> (l: Leaf)
        ensures
            l == Leaf::spec_empty(),
    {
        Leaf {
            voxel: OctreeVoxel::empty(),
            children: [U32MAX, U32MAX, U32MAX, U32MAX, U32MAX, U32MAX, U32MAX, U32MAX],
        }
    }

    /// The node has been subdivided (the test `modify` makes).
    pub open spec fn is_branch(self) -> bool {
        self.children[0] != U32MAX
    }
}

// ---------------------------------------------------------------- geometry

/// Sub-voxel units per voxel. While descending, centres and widths are held
/// in these units: below an octree whose width is a `u32`, every centre a
/// descent meets and every width at which it still moves on is a whole
/// number of them, so the quarter-width steps (and the half-voxel step below
/// two voxels) are exact.
pub const SUB: i128 = 0x4_0000_0000;

pub open spec fn subunits() -> int {
    0x4_0000_0000
}

/// The three components of a centre held in `i128`.
pub open spec fn tuple_of(c: [i128; 3]) -> (int, int, int) {
    (c[0] as int, c[1] as int, c[2] as int)
}

/// Octant of the voxel `p` relative to the centre `c` (in sub-voxel units):
/// bit 0 for x at or right of the centre, bit 1 for y below it, bit 2 for z
/// at or beyond it.
pub open spec fn fine_octant(c: (int, int, int), p: [i32; 3]) -> u32 {
    ((if subunits() * p[0] >= c.0 { 1u32 } else { 0u32 }) + (if subunits() * p[1] >= c.1 { 0u32 } else { 2u32 })
        + (if subunits() * p[2] >= c.2 { 4u32 } else { 0u32 })) as u32
}

/// Octant of the point `q` relative to the centre `c`, both in sub-voxel
/// units (the test `get_leaf` makes, on any point).
pub open spec fn point_octant(c: (int, int, int), q: (int, int, int)) -> u32 {
    ((if q.0 >= c.0 { 1u32 } else { 0u32 }) + (if q.1 >= c.1 { 0u32 } else { 2u32 })
        + (if q.2 >= c.2 { 4u32 } else { 0u32 })) as u32
}

/// Octant bits of the voxel `pos` relative to the centre `root`.
pub open spec fn spec_get_leaf(root: [i128; 3], pos: [i32; 3]) -> u32 {
    fine_octant(tuple_of(root), pos)
}

/// Index of the child octant of the node centred at `root` (in sub-voxel
/// units) that holds the voxel `pos`.
pub fn get_leaf(root: [i128; 3], pos: [i32; 3]) -> (idx: u32)
    ensures
        idx == spec_get_leaf(root, pos),
        idx < 8,
{
    let mut idx: u32 = 0;
    if SUB * (pos[0] as i128) >= root[0] {
        idx = idx | 1;
    }
    if SUB * (pos[1] as i128) >= root[1] {
        idx = idx | 0;
    } else {
        idx = idx | 2;
    }
    if SUB * (pos[2] as i128) >= root[2] {
        idx = idx | 4;
    }
    proof {
        assert(0u32 | 1u32 == 1u32) by (bit_vector);
        assert(0u32 | 0u32 == 0u32) by (bit_vector);
        assert(1u32 | 0u32 == 1u32) by (bit_vector);
        assert(0u32 | 2u32 == 2u32) by (bit_vector);
        assert(1u32 | 2u32 == 3u32) by (bit_vector);
        assert(0u32 | 4u32 == 4u32) by (bit_vector);
        assert(1u32 | 4u32 == 5u32) by (bit_vector);
        assert(2u32 | 4u32 == 6u32) by (bit_vector);
        assert(3u32 | 4u32 == 7u32) by (bit_vector);
    }
    idx
}

/// Offset, in signed units of `d`, that octant bit `bit` of `idx` moves a
/// centre along its axis; `up` says whether a set bit moves it up.
pub open spec fn axis_step(idx: u32, bit: u32, up: bool, d: int) -> int {
    if (idx & bit == 0) == up { -d } else { d }
}

/// The step from a centre to a child centre in a node of width `w` (both in
/// sub-voxel units): a quarter of the width, but at least half a voxel.
pub open spec fn fine_step(w: int) -> int {
    if w / 4 >= subunits() / 2 {
        w / 4
    } else {
        subunits() / 2
    }
}

/// Centre of child `i` of the node centred at `c` with width `w`.
pub open spec fn fine_child(i: u32, c: (int, int, int), w: int) -> (int, int, int) {
    let d = fine_step(w);
    (c.0 + axis_step(i, 1, true, d), c.1 + axis_step(i, 2, false, d), c.2 + axis_step(i, 4, true, d))
}

/// The components of a centre stay within `2^100` sub-voxel units.
pub open spec fn centre_bounded(c: [i128; 3]) -> bool {
    &&& -0x10_0000_0000_0000_0000_0000_0000 <= c[0] <= 0x10_0000_0000_0000_0000_0000_0000
    &&& -0x10_0000_0000_0000_0000_0000_0000 <= c[1] <= 0x10_0000_0000_0000_0000_0000_0000
    &&& -0x10_0000_0000_0000_0000_0000_0000 <= c[2] <= 0x10_0000_0000_0000_0000_0000_0000
}

/// Centre of child `idx` of the node centred at `old_root` with width
/// `old_width` (sub-voxel units): it moves by the larger of a quarter of the
/// width and half a voxel on each axis, in the direction octant `idx` names,
/// so that it lies in that octant.
pub fn get_new_root(idx: u32, old_root: [i128; 3], old_width: u128) -> (r: [i128; 3])
    requires
        centre_bounded(old_root),
        old_width <= 0x1_0000_0000_0000_0000_0000,
    ensures
        tuple_of(r) == fine_child(idx, tuple_of(old_root), old_width as int),
        point_octant(tuple_of(old_root), tuple_of(r)) == idx % 8,
        forall|k: int|
            0 <= k < 3 ==> old_root[k] - fine_step(old_width as int) <= #[trigger] r[k] <= old_root[k]
                + fine_step(old_width as int),
{
    let q = (old_width / 4) as i128;
    let val: i128 = if q >= SUB / 2 {
        q
    } else {
        SUB / 2
    };
    let x_offset = if (idx & 1) == 0 {
        -val
    } else {
        val
    };
    let y_offset = if (idx & 2) == 0 {
        val
    } else {
        -val
    };
    let z_offset = if (idx & 4) == 0 {
        -val
    } else {
        val
    };
    proof {
        assert(idx % 8 == (if idx & 1 == 0 { 0u32 } else { 1u32 }) + (if idx & 2 == 0 { 0u32 } else { 2u32 })
            + (if idx & 4 == 0 { 0u32 } else { 4u32 })) by (bit_vector);
    }
    [old_root[0] + x_offset, old_root[1] + y_offset, old_root[2] + z_offset]
}

/// Whether an integer centre stays representable while descending from a
/// node of width `width`.
pub open spec fn root_fits(root: [i64; 3], width: int) -> bool {
    &&& -0x4000_0000_0000_0000 + width <= root[0] <= 0x4000_0000_0000_0000 - width
    &&& -0x4000_0000_0000_0000 + width <= root[1] <= 0x4000_0000_0000_0000 - width
    &&& -0x4000_0000_0000_0000 + width <= root[2] <= 0x4000_0000_0000_0000 - width
}

/// An integer centre in sub-voxel units.
pub open spec fn fine_root(r: [i64; 3]) -> (int, int, int) {
    (subunits() * r[0], subunits() * r[1], subunits() * r[2])
}

/// `w` is a power of two.
pub open spec fn pow2(w: int) -> bool
    decreases w,
{
    if w < 1 {
        false
    } else if w == 1 {
        true
    } else {
        w % 2 == 0 && pow2(w / 2)
    }
}

/// Halving `w` again and again reaches `lod` exactly: the descent of
/// `modify` from a node of width `w` stops.
pub open spec fn reaches(w: int, lod: int) -> bool
    decreases w,
{
    if w == lod {
        true
    } else if w <= lod || w <= 0 {
        false
    } else {
        reaches(w / 2, lod)
    }
}

/// Number of levels `modify` descends from a node of width `w`.
pub open spec fn levels(w: int, lod: int) -> nat
    decreases w,
{
    if w <= lod || w <= 0 {
        0
    } else {
        1 + levels(w / 2, lod)
    }
}

// Doubled coordinates: twice a centre is always a whole number, also for
// the half-voxel centres below width two.

/// Twice the centre `r`.
pub open spec fn doubled(r: [i64; 3]) -> (int, int, int) {
    (2 * r[0], 2 * r[1], 2 * r[2])
}

/// Octant of `p` relative to the doubled centre `c`.
pub open spec fn octant2(c: (int, int, int), p: [i32; 3]) -> u32 {
    ((if 2 * p[0] >= c.0 { 1u32 } else { 0u32 }) + (if 2 * p[1] >= c.1 { 0u32 } else { 2u32 })
        + (if 2 * p[2] >= c.2 { 4u32 } else { 0u32 })) as u32
}

/// Twice the step from a centre to a child centre in a node of width `w`:
/// twice the larger of `w / 4` and one half.
pub open spec fn half_step(w: int) -> int {
    if w / 2 >= 1 {
        w / 2
    } else {
        1
    }
}

/// Doubled centre of child `i` of the node with doubled centre `c`, width `w`.
pub open spec fn child_center2(i: u32, c: (int, int, int), w: int) -> (int, int, int) {
    let d = half_step(w);
    (c.0 + axis_step(i, 1, true, d), c.1 + axis_step(i, 2, false, d), c.2 + axis_step(i, 4, true, d))
}

/// Octants that an insertion at resolution `lod` follows from a node with
/// doubled centre `c` and width `w`.
pub open spec fn insert_path(c: (int, int, int), w: int, p: [i32; 3], lod: int) -> Seq<u32>
    decreases w,
{
    if w <= lod || w <= 0 {
        seq![]
    } else {
        let o = octant2(c, p);
        seq![o] + insert_path(child_center2(o, c, w), w / 2, p, lod)
    }
}

/// Octants that a descent writing at resolution `lod` follows from a node
/// centred at `c` with width `w` (sub-voxel units): it stops where the width,
/// in whole voxels rounded down, is `lod`.
pub open spec fn fine_path(c: (int, int, int), w: int, p: [i32; 3], lod: int) -> Seq<u32>
    decreases w,
{
    if w / subunits() <= lod || w / subunits() <= 0 {
        seq![]
    } else {
        let o = fine_octant(c, p);
        seq![o] + fine_path(fine_child(o, c, w), w / 2, p, lod)
    }
}

/// Halving a width and then rounding it to whole voxels rounds the same as
/// rounding first and halving.
proof fn lemma_halve_floor(a: int)
    requires
        a >= 0,
    ensures
        (a / 2) / subunits() == (a / subunits()) / 2,
{
    vstd::arithmetic::div_mod::lemma_div_denominator(a, 2, subunits());
    vstd::arithmetic::div_mod::lemma_div_denominator(a, subunits(), 2);
}

/// The descent has as many steps as halving the whole-voxel width takes to
/// reach `lod`.
proof fn lemma_fine_path_len(c: (int, int, int), w: int, p: [i32; 3], lod: int)
    requires
        w >= 0,
    ensures
        fine_path(c, w, p, lod).len() == levels(w / subunits(), lod),
        forall|i: int| 0 <= i < fine_path(c, w, p, lod).len() ==> #[trigger] fine_path(c, w, p, lod)[i] < 8,
    decreases w,
{
    if !(w / subunits() <= lod || w / subunits() <= 0) {
        let o = fine_octant(c, p);
        lemma_halve_floor(w);
        lemma_fine_path_len(fine_child(o, c, w), w / 2, p, lod);
        let rest = fine_path(fine_child(o, c, w), w / 2, p, lod);
        assert forall|i: int| 0 <= i < fine_path(c, w, p, lod).len() implies #[trigger] fine_path(
            c,
            w,
            p,
            lod,
        )[i] < 8 by {
            if i > 0 {
                assert(fine_path(c, w, p, lod)[i] == rest[i - 1]);
            }
        }
    }
}

/// The whole-voxel width `w` and the sub-voxel width `f` describe the same
/// node for the purpose of a descent: `f` is `w` voxels on a power-of-two
/// width, or less than a voxel where the whole-voxel width has reached zero.
pub open spec fn widths_agree(w: int, f: int) -> bool {
    ||| pow2(w) && f == subunits() * w
    ||| w == 0 && 0 <= f < subunits()
}

/// A doubled centre in sub-voxel units.
pub open spec fn from_doubled(c: (int, int, int)) -> (int, int, int) {
    ((subunits() / 2) * c.0, (subunits() / 2) * c.1, (subunits() / 2) * c.2)
}

proof fn lemma_agree_step(c: (int, int, int), w: int, f: int, p: [i32; 3], i: u32)
    requires
        widths_agree(w, f),
    ensures
        fine_octant(from_doubled(c), p) == octant2(c, p),
        fine_child(i, from_doubled(c), f) == from_doubled(child_center2(i, c, w)),
        widths_agree(w / 2, f / 2),
        f / subunits() == w,
{
    let h = subunits() / 2;
    assert(h == 0x2_0000_0000);
    lemma_scaled_compare(p[0] as int, c.0);
    lemma_scaled_compare(p[1] as int, c.1);
    lemma_scaled_compare(p[2] as int, c.2);
    if pow2(w) && w >= 2 {
        lemma_pow2_half(w);
        let m = w / 2;
        assert(w == 2 * m);
        assert(f == 0x8_0000_0000 * m);
        assert(f / 4 == h * m) by (nonlinear_arith)
            requires
                f == 0x8_0000_0000 * m,
                h == 0x2_0000_0000,
        ;
        assert(f / 2 == subunits() * m) by (nonlinear_arith)
            requires
                f == 0x8_0000_0000 * m,
        ;
        assert(f / subunits() == w) by (nonlinear_arith)
            requires
                f == 0x4_0000_0000 * w,
        ;
        assert(half_step(w) == m);
        assert(fine_step(f) == h * m);
    } else if pow2(w) {
        assert(w == 1);
        assert(fine_step(f) == h);
    } else {
        assert(fine_step(f) == h);
    }
    assert(fine_step(f) == h * half_step(w));
    let d = half_step(w);
    lemma_scaled_sum(c.0, d);
    lemma_scaled_sum(c.1, d);
    lemma_scaled_sum(c.2, d);
}

proof fn lemma_scaled_compare(a: int, b: int)
    ensures
        (subunits() * a >= (subunits() / 2) * b) == (2 * a >= b),
{
    assert((0x4_0000_0000 * a >= 0x2_0000_0000 * b) == (2 * a >= b)) by (nonlinear_arith);
}

proof fn lemma_scaled_sum(a: int, d: int)
    ensures
        (subunits() / 2) * (a + d) == (subunits() / 2) * a + (subunits() / 2) * d,
        (subunits() / 2) * (a - d) == (subunits() / 2) * a - (subunits() / 2) * d,
{
    assert(0x2_0000_0000 * (a + d) == 0x2_0000_0000 * a + 0x2_0000_0000 * d) by (nonlinear_arith);
    assert(0x2_0000_0000 * (a - d) == 0x2_0000_0000 * a - 0x2_0000_0000 * d) by (nonlinear_arith);
}

/// On a power-of-two width, the sub-voxel descent follows the same octants
/// as the whole-voxel one.
proof fn lemma_paths_agree(c: (int, int, int), w: int, f: int, p: [i32; 3], lod: int)
    requires
        widths_agree(w, f),
    ensures
        fine_path(from_doubled(c), f, p, lod) == insert_path(c, w, p, lod),
    decreases w,
{
    lemma_agree_step(c, w, f, p, octant2(c, p));
    if !(w <= lod || w <= 0) {
        let o = octant2(c, p);
        lemma_paths_agree(child_center2(o, c, w), w / 2, f / 2, p, lod);
    }
}

/// The node at which a lookup of `p` stops: starting at node `n` centred at
/// `c` with width `w` (sub-voxel units), it follows the octant of `p` while
/// the child exists, visiting at most `fuel` nodes.
pub open spec fn fine_lookup(leaves: Seq<Leaf>, n: int, c: (int, int, int), w: int, p: [i32; 3], fuel: nat) -> int
    decreases fuel,
{
    let i = fine_octant(c, p);
    let nx = leaves[n].children[i as int];
    if nx == U32MAX || fuel <= 1 {
        n
    } else {
        fine_lookup(leaves, nx as int, fine_child(i, c, w), w / 2, p, (fuel - 1) as nat)
    }
}

// ------------------------------------------------------------ leaf arrays

/// The children of `l` are all absent or all indices below `len`.
pub open spec fn all_or_none(l: Leaf, len: int) -> bool {
    ||| forall|j: int| 0 <= j < 8 ==> l.children[j] == U32MAX
    ||| forall|j: int| 0 <= j < 8 ==> (l.children[j] as int) < len
}

/// Every child index of every leaf is absent or names a leaf.
pub open spec fn links_valid(leaves: Seq<Leaf>) -> bool {
    forall|n: int, j: int|
        0 <= n < leaves.len() && 0 <= j < 8 ==> leaves[n].children[j] == U32MAX
            || (leaves[n].children[j] as int) < leaves.len()
}

/// A leaf array whose nodes a descent can follow: non-empty, indices below
/// the sentinel, and each node subdivided completely or not at all.
pub open spec fn nodes_wf(leaves: Seq<Leaf>) -> bool {
    &&& 1 <= leaves.len() < U32MAX
    &&& forall|n: int| 0 <= n < leaves.len() ==> #[trigger] all_or_none(leaves[n], leaves.len() as int)
}

/// A leaf array that insertion accepts: one a descent can follow, with a
/// subdivided root (insertion reads a child of the root before descending).
pub open spec fn leaves_wf(leaves: Seq<Leaf>) -> bool {
    &&& 1 <= leaves.len() < U32MAX
    &&& forall|n: int| 0 <= n < leaves.len() ==> #[trigger] all_or_none(leaves[n], leaves.len() as int)
    &&& leaves[0].is_branch()
}

/// Children of a node subdivided when the array held `b` leaves.
pub open spec fn fresh_children(b: int) -> [u32; 8] {
    [
        b as u32,
        (b + 1) as u32,
        (b + 2) as u32,
        (b + 3) as u32,
        (b + 4) as u32,
        (b + 5) as u32,
        (b + 6) as u32,
        (b + 7) as u32,
    ]
}

/// Subdividing node `n`: eight empty leaves are appended and become its
/// children.
pub open spec fn spec_subdivide(leaves: Seq<Leaf>, n: int) -> Seq<Leaf> {
    (leaves + Seq::new(8, |i: int| Leaf::spec_empty())).update(
        n,
        Leaf { voxel: leaves[n].voxel, children: fresh_children(leaves.len() as int) },
    )
}

/// Writing voxel `v` at the end of `path` from node `n`, subdividing every
/// undivided node on the way.
pub open spec fn spec_modify(leaves: Seq<Leaf>, n: int, path: Seq<u32>, v: OctreeVoxel) -> Seq<Leaf>
    decreases path.len(),
{
    if path.len() == 0 {
        leaves.update(n, Leaf { voxel: v, children: leaves[n].children })
    } else {
        let l1 = if leaves[n].is_branch() {
            leaves
        } else {
            spec_subdivide(leaves, n)
        };
        spec_modify(l1, l1[n].children[path[0] as int] as int, path.drop_first(), v)
    }
}


// ------------------------------------------------------------ lemmas

proof fn lemma_pow2_half(w: int)
    requires
        pow2(w),
        w >= 2,
    ensures
        pow2(w / 2),
        w % 2 == 0,
        w >= 4 ==> w % 4 == 0,
{
    if w >= 4 {
        assert(pow2(w / 2));
        assert((w / 2) % 2 == 0);
    }
}

proof fn lemma_subdivide_wf(leaves: Seq<Leaf>, n: int)
    requires
        nodes_wf(leaves),
        0 <= n < leaves.len(),
        !leaves[n].is_branch(),
        leaves.len() + 8 < U32MAX,
    ensures
        nodes_wf(spec_subdivide(leaves, n)),
        leaves[0].is_branch() || n == 0 ==> spec_subdivide(leaves, n)[0].is_branch(),
        spec_subdivide(leaves, n).len() == leaves.len() + 8,
        spec_subdivide(leaves, n)[n].is_branch(),
        forall|j: int|
            0 <= j < 8 ==> spec_subdivide(leaves, n)[n].children[j] as int == leaves.len() + j,
{
    let l2 = spec_subdivide(leaves, n);
    let len = leaves.len() as int;
    assert forall|m: int| 0 <= m < l2.len() implies #[trigger] all_or_none(l2[m], l2.len() as int) by {
        if m == n {
            assert(forall|j: int| 0 <= j < 8 ==> (l2[m].children[j] as int) < l2.len());
        } else if m < len {
            assert(all_or_none(leaves[m], len));
            assert(l2[m] == leaves[m]);
        } else {
            assert(l2[m] == Leaf::spec_empty());
        }
    }
}


// ------------------------------------------------------------ the octree

/// An octree centred at `root` with width `width`, whose nodes live in
/// `leaves`; leaf 0 is the root node.
#[derive(Clone, Debug)]
pub struct Octree {
    pub root: [i64; 3],
    pub width: u32,
    pub leaves: Vec<Leaf>,
}

impl Octree {
    pub open spec fn spec_new_leaves() -> Seq<Leaf> {
        seq![
            Leaf::spec_first(),
            Leaf::spec_empty(),
            Leaf::spec_empty(),
            Leaf::spec_empty(),
            Leaf::spec_empty(),
            Leaf::spec_empty(),
            Leaf::spec_empty(),
            Leaf::spec_empty(),
            Leaf::spec_empty(),
        ]
    }

    /// An octree whose root is subdivided into eight empty leaves.
    pub fn new(width: u32, root: [i64; 3]) -> (o: Octree)
        ensures
            o.root == root,
            o.width == width,
            o.leaves@ == Octree::spec_new_leaves(),
            leaves_wf(o.leaves@),
    {
        let leaves = vec![
            Leaf::first(),
            Leaf::empty(),
            Leaf::empty(),
            Leaf::empty(),
            Leaf::empty(),
            Leaf::empty(),
            Leaf::empty(),
            Leaf::empty(),
            Leaf::empty(),
        ];
        let o = Octree { root: root, width: width, leaves: leaves };
        assert(o.leaves@ =~= Octree::spec_new_leaves());
        assert forall|n: int| 0 <= n < o.leaves@.len() implies #[trigger] all_or_none(
            o.leaves@[n],
            o.leaves@.len() as int,
        ) by {
            if n == 0 {
                assert(forall|j: int| 0 <= j < 8 ==> (o.leaves@[n].children[j] as int) < 9);
            }
        }
        o
    }

    /// Write `voxel` into the node at resolution `lod` that holds `vox_pos`,
    /// starting at leaf `leaf_index`, a node centred at `root` with width
    /// `width` (both in sub-voxel units). Where the width, in whole voxels
    /// rounded down, is `lod`, the voxel is written there; otherwise an
    /// undivided node is first subdivided, and the descent goes on into the
    /// child that holds `vox_pos`, at the child's centre and half the width.
    pub fn modify(
        &mut self,
        leaf_index: u32,
        vox_pos: [i32; 3],
        voxel: OctreeVoxel,
        root: [i128; 3],
        width: u128,
        lod: u32,
    )
        requires
            nodes_wf(old(self).leaves@),
            (leaf_index as int) < old(self).leaves@.len(),
            reaches(width as int / subunits(), lod as int),
            descent_fits(root, width as int),
            old(self).leaves@.len() + 8 * levels(width as int / subunits(), lod as int) < U32MAX,
        ensures
            final(self).leaves@ == spec_modify(
                old(self).leaves@,
                leaf_index as int,
                fine_path(tuple_of(root), width as int, vox_pos, lod as int),
                voxel,
            ),
            nodes_wf(final(self).leaves@),
            old(self).leaves@[0].is_branch() ==> final(self).leaves@[0].is_branch(),
            final(self).root == old(self).root,
            final(self).width == old(self).width,
        decreases width,
    {
        let ghost old_leaves = self.leaves@;
        if width / (SUB as u128) == lod as u128 {
            self.leaves[leaf_index as usize].voxel = voxel;
            proof {
                assert(self.leaves@ =~= old_leaves.update(
                    leaf_index as int,
                    Leaf { voxel: voxel, children: old_leaves[leaf_index as int].children },
                ));
                assert forall|n: int| 0 <= n < self.leaves@.len() implies #[trigger] all_or_none(
                    self.leaves@[n],
                    self.leaves@.len() as int,
                ) by {
                    assert(all_or_none(old_leaves[n], old_leaves.len() as int));
                }
            }
            return ;
        }
        proof {
            lemma_halve_floor(width as int);
        }
        if self.leaves[leaf_index as usize].children[0] == U32MAX {
            let base = self.leaves.len();
            let mut k: usize = 0;
            while k < 8
                invariant
                    0 <= k <= 8,
                    base == old_leaves.len(),
                    self.leaves@ =~= old_leaves + Seq::new(k as nat, |i: int| Leaf::spec_empty()),
                    self.root == old(self).root,
                    self.width == old(self).width,
                decreases 8 - k,
            {
                self.leaves.push(Leaf::empty());
                k = k + 1;
            }
            let b = base as u32;
            self.leaves[leaf_index as usize].children = [
                b,
                b + 1,
                b + 2,
                b + 3,
                b + 4,
                b + 5,
                b + 6,
                b + 7,
            ];
            proof {
                assert(self.leaves@ =~= spec_subdivide(old_leaves, leaf_index as int));
                lemma_subdivide_wf(old_leaves, leaf_index as int);
            }
        }
        let ghost l1 = self.leaves@;
        let i = get_leaf(root, vox_pos);
        let leaf_index_next = self.leaves[leaf_index as usize].children[i as usize];
        proof {
            assert(all_or_none(l1[leaf_index as int], l1.len() as int));
        }
        let new_root = get_new_root(i, root, width);
        self.modify(leaf_index_next, vox_pos, voxel, new_root, width / 2, lod);
        proof {
            let path = fine_path(tuple_of(root), width as int, vox_pos, lod as int);
            let rest = fine_path(tuple_of(new_root), (width / 2) as int, vox_pos, lod as int);
            assert(path == seq![i] + rest);
            assert(path.len() > 0);
            assert(path[0] == i);
            assert(path.drop_first() =~= rest);
            assert(l1 == if old_leaves[leaf_index as int].is_branch() {
                old_leaves
            } else {
                spec_subdivide(old_leaves, leaf_index as int)
            });
        }
    }

    /// The octree accepts an insertion at resolution `lod`: a leaf array a
    /// descent can follow, with a subdivided root and room for the new
    /// leaves, a width whose halving from the root's children reaches `lod`,
    /// and a centre that stays representable.
    pub open spec fn insertable(self, lod: u32) -> bool {
        &&& leaves_wf(self.leaves@)
        &&& self.leaves@.len() <= MAX_LEAVES
        &&& reaches((self.width / 2) as int, lod as int)
        &&& root_fits(self.root, self.width as int)
    }

    /// The leaves after inserting `v` at `p` with resolution `lod`.
    pub open spec fn spec_insert(self, p: [i32; 3], v: OctreeVoxel, lod: u32) -> Seq<Leaf> {
        fine_insert_leaves(self.leaves@, self.root, self.width, p, v, lod)
    }

    /// Store `voxel` at `vox_pos` in a node of width `lod`, subdividing the
    /// nodes above it as needed: the descent starts at the root's child
    /// that holds `vox_pos`.
    pub fn insert(&mut self, vox_pos: [i32; 3], voxel: OctreeVoxel, lod: u32)
        requires
            old(self).insertable(lod),
        ensures
            final(self).leaves@ == old(self).spec_insert(vox_pos, voxel, lod),
            leaves_wf(final(self).leaves@),
            final(self).root == old(self).root,
            final(self).width == old(self).width,
    {
        let ghost old_leaves = self.leaves@;
        let root: [i128; 3] = [
            SUB * (self.root[0] as i128),
            SUB * (self.root[1] as i128),
            SUB * (self.root[2] as i128),
        ];
        let width: u128 = (SUB as u128) * (self.width as u128);
        let i = get_leaf(root, vox_pos);
        let leaf_index = self.leaves[0].children[i as usize];
        proof {
            assert(all_or_none(old_leaves[0], old_leaves.len() as int));
            lemma_two_to_32();
            lemma_levels_bound((self.width / 2) as int, lod as int, 32);
            lemma_halve_floor(width as int);
            vstd::arithmetic::div_mod::lemma_div_multiples_vanish(self.width as int, subunits());
            assert(tuple_of(root) == fine_root(self.root));
        }
        let new_root = get_new_root(i, root, width);
        self.modify(leaf_index, vox_pos, voxel, new_root, width / 2, lod);
        proof {
            let rest = fine_path(tuple_of(new_root), (width / 2) as int, vox_pos, lod as int);
            assert(fine_insert_path(old(self).root, old(self).width, vox_pos, lod as int) == seq![i] + rest);
            assert(fine_insert_path(old(self).root, old(self).width, vox_pos, lod as int).drop_first() =~= rest);
        }
    }
}

/// The room a descent from a node centred at `c` with width `w` (sub-voxel
/// units) needs: every centre it meets stays within `2^100` units.
pub open spec fn descent_fits(c: [i128; 3], w: int) -> bool {
    &&& 0 <= w <= 0x1_0000_0000_0000_0000_0000
    &&& -0x10_0000_0000_0000_0000_0000_0000 + w <= c[0] <= 0x10_0000_0000_0000_0000_0000_0000 - w
    &&& -0x10_0000_0000_0000_0000_0000_0000 + w <= c[1] <= 0x10_0000_0000_0000_0000_0000_0000 - w
    &&& -0x10_0000_0000_0000_0000_0000_0000 + w <= c[2] <= 0x10_0000_0000_0000_0000_0000_0000 - w
}

/// The octants an insertion into an octree centred at `root` with width
/// `width` follows: the root's child that holds `p`, then the descent from
/// that child.
pub open spec fn fine_insert_path(root: [i64; 3], width: u32, p: [i32; 3], lod: int) -> Seq<u32> {
    let c = fine_root(root);
    let w = subunits() * width;
    let o = fine_octant(c, p);
    seq![o] + fine_path(fine_child(o, c, w), w / 2, p, lod)
}

/// The leaves after inserting `v` at `p` with resolution `lod` into the
/// leaves of an octree centred at `root` with width `width`.
pub open spec fn fine_insert_leaves(
    leaves: Seq<Leaf>,
    root: [i64; 3],
    width: u32,
    p: [i32; 3],
    v: OctreeVoxel,
    lod: u32,
) -> Seq<Leaf> {
    spec_modify(leaves, 0, fine_insert_path(root, width, p, lod as int), v)
}

/// The octrees the read-back laws speak of: leaves that accept an insertion
/// at resolution `lod` (at least one voxel) into an octree with a
/// power-of-two width. Only there are the nodes at one voxel's resolution
/// single voxels; on other widths the finest nodes hold several voxels
/// (width 6 at resolution 1 stops at nodes 1.5 voxels wide), so two
/// positions can share one.
pub open spec fn insertable_leaves(leaves: Seq<Leaf>, root: [i64; 3], width: u32, lod: u32) -> bool {
    &&& leaves_wf(leaves)
    &&& leaves.len() <= MAX_LEAVES
    &&& lod >= 1
    &&& pow2(width as int)
    &&& reaches((width / 2) as int, lod as int)
    &&& root_fits(root, width as int)
}

/// The leaves after inserting `v` at `p` with resolution `lod` into the
/// leaves of an octree centred at `root` with width `width`.
pub open spec fn insert_leaves(
    leaves: Seq<Leaf>,
    root: [i64; 3],
    width: u32,
    p: [i32; 3],
    v: OctreeVoxel,
    lod: u32,
) -> Seq<Leaf> {
    spec_modify(leaves, 0, insert_path(doubled(root), width as int, p, lod as int), v)
}

/// `2` to the power `k`.
pub open spec fn two_to(k: nat) -> int
    decreases k,
{
    if k == 0 {
        1
    } else {
        2 * two_to((k - 1) as nat)
    }
}

pub proof fn lemma_levels_bound(w: int, lod: int, k: nat)
    requires
        0 <= w < two_to(k),
    ensures
        levels(w, lod) <= k,
    decreases k,
{
    if k > 0 && w > lod && w > 0 {
        lemma_levels_bound(w / 2, lod, (k - 1) as nat);
    }
}

pub proof fn lemma_two_to_32()
    ensures
        two_to(32) == 0x1_0000_0000,
{
    reveal_with_fuel(two_to, 33);
}

// ------------------------------------------------------------ lookup

/// The node at which a lookup of `p` stops: starting at node `n` with doubled
/// centre `c` and width `w`, it follows the octant of `p` while the child
/// exists, visiting at most `fuel` nodes.
pub open spec fn spec_lookup(leaves: Seq<Leaf>, n: int, c: (int, int, int), w: int, p: [i32; 3], fuel: nat) -> int
    decreases fuel,
{
    let i = octant2(c, p);
    let nx = leaves[n].children[i as int];
    if nx == U32MAX || fuel <= 1 {
        n
    } else {
        spec_lookup(leaves, nx as int, child_center2(i, c, w), w / 2, p, (fuel - 1) as nat)
    }
}

/// The node at which looking up `p` in the leaves of an octree centred at
/// `root` with width `width` stops (at most 100 levels).
pub open spec fn lookup_in(leaves: Seq<Leaf>, root: [i64; 3], width: u32, p: [i32; 3]) -> int {
    spec_lookup(leaves, 0, doubled(root), width as int, p, 100)
}

/// The node at which looking up `p` in the leaves of an octree centred at
/// `root` with width `width` stops (the descent that `check_for_voxel`
/// makes, at most 100 levels deep).
pub open spec fn fine_lookup_in(leaves: Seq<Leaf>, root: [i64; 3], width: u32, p: [i32; 3]) -> int {
    fine_lookup(leaves, 0, fine_root(root), subunits() * width, p, 100)
}

/// The node at which looking up `p` in the octree stops.
pub open spec fn lookup_node(o: Octree, p: [i32; 3]) -> int {
    fine_lookup_in(o.leaves@, o.root, o.width, p)
}

proof fn lemma_fine_root(root: [i64; 3])
    ensures
        from_doubled(doubled(root)) == fine_root(root),
{
    assert(0x2_0000_0000 * (2 * root[0]) == 0x4_0000_0000 * root[0]) by (nonlinear_arith);
    assert(0x2_0000_0000 * (2 * root[1]) == 0x4_0000_0000 * root[1]) by (nonlinear_arith);
    assert(0x2_0000_0000 * (2 * root[2]) == 0x4_0000_0000 * root[2]) by (nonlinear_arith);
}

/// On the octrees the laws speak of (power-of-two width, whole-voxel
/// resolution or coarser), an insertion follows the octants of the
/// whole-voxel descent.
pub proof fn lemma_insert_agrees(
    leaves: Seq<Leaf>,
    root: [i64; 3],
    width: u32,
    p: [i32; 3],
    v: OctreeVoxel,
    lod: u32,
)
    requires
        insertable_leaves(leaves, root, width, lod),
    ensures
        fine_insert_path(root, width, p, lod as int) == insert_path(doubled(root), width as int, p, lod as int),
        fine_insert_leaves(leaves, root, width, p, v, lod) == insert_leaves(leaves, root, width, p, v, lod),
{
    let c = doubled(root);
    let w = width as int;
    let o = octant2(c, p);
    lemma_fine_root(root);
    lemma_agree_step(c, w, subunits() * w, p, o);
    lemma_paths_agree(child_center2(o, c, w), w / 2, subunits() * w / 2, p, lod as int);
    assert(fine_insert_path(root, width, p, lod as int) =~= insert_path(c, w, p, lod as int));
}

/// On a power-of-two width (or width zero), the lookup that
/// `check_for_voxel` makes stops at the node of the whole-voxel lookup.
pub proof fn lemma_lookups_agree(leaves: Seq<Leaf>, root: [i64; 3], width: u32, p: [i32; 3])
    requires
        pow2(width as int) || width == 0,
    ensures
        fine_lookup(leaves, 0, fine_root(root), subunits() * width, p, 100) == lookup_in(leaves, root, width, p),
{
    lemma_fine_root(root);
    lemma_fine_lookup_agrees(leaves, 0, doubled(root), width as int, subunits() * width, p, 100);
}

proof fn lemma_fine_lookup_agrees(
    leaves: Seq<Leaf>,
    n: int,
    c: (int, int, int),
    w: int,
    f: int,
    p: [i32; 3],
    fuel: nat,
)
    requires
        widths_agree(w, f),
    ensures
        fine_lookup(leaves, n, from_doubled(c), f, p, fuel) == spec_lookup(leaves, n, c, w, p, fuel),
    decreases fuel,
{
    let i = octant2(c, p);
    lemma_agree_step(c, w, f, p, i);
    let nx = leaves[n].children[i as int];
    if !(nx == U32MAX || fuel <= 1) {
        lemma_fine_lookup_agrees(leaves, nx as int, child_center2(i, c, w), w / 2, f / 2, p, (fuel - 1) as nat);
    }
}

/// Whether the node that a lookup of `pos` reaches holds a voxel.
pub fn check_for_voxel(pos: [i32; 3], octree: &Octree) -> (found: bool)
    requires
        octree.leaves@.len() >= 1,
        links_valid(octree.leaves@),
    ensures
        found == (octree.leaves@[lookup_node(*octree, pos)].voxel.id != 0),
{
    let leaves = &octree.leaves;
    let ghost target = lookup_node(*octree, pos);
    let mut c: [i128; 3] = [
        SUB * (octree.root[0] as i128),
        SUB * (octree.root[1] as i128),
        SUB * (octree.root[2] as i128),
    ];
    let mut width: u128 = (SUB as u128) * (octree.width as u128);
    let mut node: usize = 0;
    let mut next_index: u32 = 0;
    let mut exit: u32 = 0;
    while next_index != U32MAX && exit < 100
        invariant
            leaves == &octree.leaves,
            leaves@.len() >= 1,
            links_valid(leaves@),
            exit <= 100,
            width <= 0x4_0000_0000_0000_0000,
            next_index == U32MAX || (next_index as int) < leaves@.len(),
            exit == 0 ==> next_index == 0 && tuple_of(c) == fine_root(octree.root) && width == subunits()
                * octree.width,
            (node as int) < leaves@.len(),
            forall|k: int|
                0 <= k < 3 ==> -0x4_0000_0000_0000_0000_0000_0000 - exit * 0x1_0000_0000_0000_0000 <= #[trigger] c[k]
                    <= 0x4_0000_0000_0000_0000_0000_0000 + exit * 0x1_0000_0000_0000_0000,
            next_index != U32MAX && exit < 100 ==> target == fine_lookup(
                leaves@,
                next_index as int,
                tuple_of(c),
                width as int,
                pos,
                (100 - exit) as nat,
            ),
            (next_index == U32MAX || exit == 100) ==> target == node,
        decreases 100 - exit,
    {
        let i = get_leaf(c, pos);
        node = next_index as usize;
        next_index = leaves[node].children[i as usize];
        if next_index != U32MAX {
            c = get_new_root(i, c, width);
            width = width / 2;
        }
        exit = exit + 1;
    }
    leaves[node].voxel.id != 0
}

// ------------------------------------------------------------ laws

/// The node where an insertion along `path` from `n` changes the old tree:
/// the first undivided node on the way, or the node at the end of the path.
pub open spec fn land(leaves: Seq<Leaf>, n: int, path: Seq<u32>) -> int
    decreases path.len(),
{
    if path.len() == 0 || !leaves[n].is_branch() {
        n
    } else {
        land(leaves, leaves[n].children[path[0] as int] as int, path.drop_first())
    }
}

/// The only old node that inserting `p` at resolution `lod` changes.
pub open spec fn landing(o: Octree, p: [i32; 3], lod: u32) -> int {
    landing_leaves(o.leaves@, o.root, o.width, p, lod)
}

/// The only old node that inserting `p` at resolution `lod` into the leaves
/// of an octree centred at `root` with width `width` changes.
pub open spec fn landing_leaves(leaves: Seq<Leaf>, root: [i64; 3], width: u32, p: [i32; 3], lod: u32) -> int {
    land(leaves, 0, insert_path(doubled(root), width as int, p, lod as int))
}

proof fn lemma_octant_small(c: (int, int, int), p: [i32; 3])
    ensures
        octant2(c, p) < 8,
{
}

pub proof fn lemma_path_len(c: (int, int, int), w: int, p: [i32; 3], lod: int)
    ensures
        insert_path(c, w, p, lod).len() == levels(w, lod),
        forall|k: int|
            0 <= k < insert_path(c, w, p, lod).len() ==> #[trigger] insert_path(c, w, p, lod)[k] < 8,
    decreases w,
{
    if !(w <= lod || w <= 0) {
        let o = octant2(c, p);
        lemma_path_len(child_center2(o, c, w), w / 2, p, lod);
        let rest = insert_path(child_center2(o, c, w), w / 2, p, lod);
        assert forall|k: int| 0 <= k < insert_path(c, w, p, lod).len() implies #[trigger] insert_path(
            c,
            w,
            p,
            lod,
        )[k] < 8 by {
            if k > 0 {
                assert(insert_path(c, w, p, lod)[k] == rest[k - 1]);
            }
        }
    }
}

/// Modifying keeps the children of every node that was already subdivided.
proof fn lemma_modify_keeps_branches(leaves: Seq<Leaf>, n: int, path: Seq<u32>, v: OctreeVoxel, m: int)
    requires
        leaves_wf(leaves),
        0 <= n < leaves.len(),
        forall|k: int| 0 <= k < path.len() ==> #[trigger] path[k] < 8,
        leaves.len() + 8 * path.len() < U32MAX,
        0 <= m < leaves.len(),
        leaves[m].is_branch(),
    ensures
        spec_modify(leaves, n, path, v).len() >= leaves.len(),
        spec_modify(leaves, n, path, v)[m].children == leaves[m].children,
    decreases path.len(),
{
    if path.len() > 0 {
        let l1 = if leaves[n].is_branch() {
            leaves
        } else {
            lemma_subdivide_wf(leaves, n);
            spec_subdivide(leaves, n)
        };
        assert(all_or_none(l1[n], l1.len() as int));
        let next = l1[n].children[path[0] as int] as int;
        let rest = path.drop_first();
        assert(forall|k: int| 0 <= k < rest.len() ==> rest[k] == path[k + 1]);
        lemma_modify_keeps_branches(l1, next, rest, v, m);
    }
}

/// Modifying from a freshly appended undivided node leaves every older
/// node alone.
proof fn lemma_modify_fresh(leaves: Seq<Leaf>, n: int, path: Seq<u32>, v: OctreeVoxel, bound: int)
    requires
        leaves_wf(leaves),
        0 <= bound <= n < leaves.len(),
        !leaves[n].is_branch(),
        forall|k: int| 0 <= k < path.len() ==> #[trigger] path[k] < 8,
        leaves.len() + 8 * path.len() < U32MAX,
    ensures
        spec_modify(leaves, n, path, v).len() >= leaves.len(),
        forall|m: int| 0 <= m < bound ==> #[trigger] spec_modify(leaves, n, path, v)[m] == leaves[m],
    decreases path.len(),
{
    if path.len() > 0 {
        lemma_subdivide_wf(leaves, n);
        let l1 = spec_subdivide(leaves, n);
        let next = l1[n].children[path[0] as int] as int;
        let rest = path.drop_first();
        assert(forall|k: int| 0 <= k < rest.len() ==> rest[k] == path[k + 1]);
        assert(l1[next] == Leaf::spec_empty());
        lemma_modify_fresh(l1, next, rest, v, bound);
        assert forall|m: int| 0 <= m < bound implies #[trigger] spec_modify(leaves, n, path, v)[m]
            == leaves[m] by {
            assert(l1[m] == leaves[m]);
        }
    }
}

/// Modifying changes no old node but the landing node, and keeps the
/// children of the landing node when it was subdivided.
proof fn lemma_modify_frame(leaves: Seq<Leaf>, n: int, path: Seq<u32>, v: OctreeVoxel)
    requires
        leaves_wf(leaves),
        0 <= n < leaves.len(),
        forall|k: int| 0 <= k < path.len() ==> #[trigger] path[k] < 8,
        leaves.len() + 8 * path.len() < U32MAX,
    ensures
        spec_modify(leaves, n, path, v).len() >= leaves.len(),
        forall|m: int|
            0 <= m < leaves.len() && m != land(leaves, n, path) ==> #[trigger] spec_modify(
                leaves,
                n,
                path,
                v,
            )[m] == leaves[m],
        leaves[land(leaves, n, path)].is_branch() ==> spec_modify(leaves, n, path, v)[land(
            leaves,
            n,
            path,
        )].children == leaves[land(leaves, n, path)].children,
        0 <= land(leaves, n, path) < leaves.len(),
        !leaves[land(leaves, n, path)].is_branch() ==> forall|j: int|
            0 <= j < 8 ==> #[trigger] spec_modify(leaves, n, path, v)[land(leaves, n, path)].children[j]
                == U32MAX || spec_modify(leaves, n, path, v)[land(leaves, n, path)].children[j]
                >= leaves.len(),
    decreases path.len(),
{
    let rest = path.drop_first();
    if path.len() == 0 {
        assert(all_or_none(leaves[n], leaves.len() as int));
    } else if !leaves[n].is_branch() {
        lemma_subdivide_wf(leaves, n);
        let l1 = spec_subdivide(leaves, n);
        let next = l1[n].children[path[0] as int] as int;
        assert(forall|k: int| 0 <= k < rest.len() ==> rest[k] == path[k + 1]);
        assert(l1[next] == Leaf::spec_empty());
        lemma_modify_fresh(l1, next, rest, v, leaves.len() as int);
        assert forall|m: int| 0 <= m < leaves.len() && m != land(leaves, n, path) implies
            #[trigger] spec_modify(leaves, n, path, v)[m] == leaves[m] by {
            assert(l1[m] == leaves[m]);
        }
    } else {
        assert(all_or_none(leaves[n], leaves.len() as int));
        let next = leaves[n].children[path[0] as int] as int;
        assert(forall|k: int| 0 <= k < rest.len() ==> rest[k] == path[k + 1]);
        lemma_modify_frame(leaves, next, rest, v);
    }
}

/// A lookup that does not stop at the only changed node `e` gives the same
/// node before and after the change.
proof fn lemma_lookup_frame(
    old_leaves: Seq<Leaf>,
    new_leaves: Seq<Leaf>,
    e: int,
    n: int,
    c: (int, int, int),
    w: int,
    p: [i32; 3],
    fuel: nat,
)
    requires
        leaves_wf(old_leaves),
        0 <= n < old_leaves.len(),
        forall|m: int| 0 <= m < old_leaves.len() && m != e ==> #[trigger] new_leaves[m] == old_leaves[m],
        old_leaves[e].is_branch() ==> new_leaves[e].children == old_leaves[e].children,
        spec_lookup(old_leaves, n, c, w, p, fuel) != e,
    ensures
        spec_lookup(new_leaves, n, c, w, p, fuel) == spec_lookup(old_leaves, n, c, w, p, fuel),
    decreases fuel,
{
    let i = octant2(c, p);
    assert(all_or_none(old_leaves[n], old_leaves.len() as int));
    let nx = old_leaves[n].children[i as int];
    if n == e {
        assert(old_leaves[e].is_branch());
    }
    assert(new_leaves[n].children[i as int] == nx);
    if nx != U32MAX && fuel > 1 {
        lemma_lookup_frame(
            old_leaves,
            new_leaves,
            e,
            nx as int,
            child_center2(i, c, w),
            w / 2,
            p,
            (fuel - 1) as nat,
        );
    }
}

/// After modifying along the insertion path of `p`, a lookup of `p` ends at
/// the written node, provided the landing node was undivided.
proof fn lemma_modify_read_back(
    leaves: Seq<Leaf>,
    n: int,
    c: (int, int, int),
    w: int,
    p: [i32; 3],
    lod: int,
    v: OctreeVoxel,
    fuel: nat,
)
    requires
        leaves_wf(leaves),
        0 <= n < leaves.len(),
        leaves.len() + 8 * levels(w, lod) < U32MAX,
        fuel > levels(w, lod),
        !leaves[land(leaves, n, insert_path(c, w, p, lod))].is_branch(),
    ensures
        spec_modify(leaves, n, insert_path(c, w, p, lod), v)[spec_lookup(
            spec_modify(leaves, n, insert_path(c, w, p, lod), v),
            n,
            c,
            w,
            p,
            fuel,
        )].voxel == v,
    decreases w,
{
    let path = insert_path(c, w, p, lod);
    lemma_path_len(c, w, p, lod);
    let r = spec_modify(leaves, n, path, v);
    if w <= lod || w <= 0 {
        assert(all_or_none(leaves[n], leaves.len() as int));
        assert(r[n].children == leaves[n].children);
    } else {
        let o = octant2(c, p);
        let c1 = child_center2(o, c, w);
        let rest = insert_path(c1, w / 2, p, lod);
        assert(path.drop_first() =~= rest);
        lemma_path_len(c1, w / 2, p, lod);
        let l1 = if leaves[n].is_branch() {
            leaves
        } else {
            lemma_subdivide_wf(leaves, n);
            spec_subdivide(leaves, n)
        };
        assert(all_or_none(l1[n], l1.len() as int));
        let next = l1[n].children[o as int] as int;
        if !leaves[n].is_branch() {
            assert(l1[next] == Leaf::spec_empty());
        }
        lemma_modify_keeps_branches(l1, next, rest, v, n);
        lemma_modify_read_back(l1, next, c1, w / 2, p, lod, v, (fuel - 1) as nat);
    }
}

/// Reading back: after `insert(p, v, lod)`, a lookup of `p` finds `v`,
/// unless the insertion landed on a node that was already subdivided
/// (finer voxels written there earlier still answer the lookup).
pub proof fn lemma_insert_read_back(o: Octree, p: [i32; 3], v: OctreeVoxel, lod: u32)
    requires
        insertable_leaves(o.leaves@, o.root, o.width, lod),
        !o.leaves@[landing(o, p, lod)].is_branch(),
    ensures
        o.spec_insert(p, v, lod)[fine_lookup_in(o.spec_insert(p, v, lod), o.root, o.width, p)].voxel == v,
{
    lemma_two_to_32();
    lemma_levels_bound(o.width as int, lod as int, 32);
    lemma_insert_agrees(o.leaves@, o.root, o.width, p, v, lod);
    lemma_lookups_agree(o.spec_insert(p, v, lod), o.root, o.width, p);
    lemma_modify_read_back(o.leaves@, 0, doubled(o.root), o.width as int, p, lod as int, v, 100);
}

/// Inserting changes no lookup that did not stop at the landing node:
/// every other position reads the same node, holding the same voxel.
pub proof fn lemma_insert_keeps_other_cells(o: Octree, p: [i32; 3], v: OctreeVoxel, lod: u32, q: [i32; 3])
    requires
        insertable_leaves(o.leaves@, o.root, o.width, lod),
        lookup_node(o, q) != landing(o, p, lod),
    ensures
        fine_lookup_in(o.spec_insert(p, v, lod), o.root, o.width, q) == lookup_node(o, q),
        o.spec_insert(p, v, lod)[lookup_node(o, q)].voxel == o.leaves@[lookup_node(o, q)].voxel,
{
    lemma_two_to_32();
    lemma_levels_bound(o.width as int, lod as int, 32);
    lemma_insert_agrees(o.leaves@, o.root, o.width, p, v, lod);
    lemma_lookups_agree(o.spec_insert(p, v, lod), o.root, o.width, q);
    lemma_lookups_agree(o.leaves@, o.root, o.width, q);
    let path = insert_path(doubled(o.root), o.width as int, p, lod as int);
    lemma_path_len(doubled(o.root), o.width as int, p, lod as int);
    lemma_modify_frame(o.leaves@, 0, path, v);
    let e = landing(o, p, lod);
    lemma_lookup_frame(
        o.leaves@,
        o.spec_insert(p, v, lod),
        e,
        0,
        doubled(o.root),
        o.width as int,
        q,
        100,
    );
    lemma_lookup_in_range(o.leaves@, 0, doubled(o.root), o.width as int, q, 100);
}

proof fn lemma_lookup_in_range(leaves: Seq<Leaf>, n: int, c: (int, int, int), w: int, p: [i32; 3], fuel: nat)
    requires
        leaves_wf(leaves),
        0 <= n < leaves.len(),
    ensures
        0 <= spec_lookup(leaves, n, c, w, p, fuel) < leaves.len(),
    decreases fuel,
{
    let i = octant2(c, p);
    assert(all_or_none(leaves[n], leaves.len() as int));
    let nx = leaves[n].children[i as int];
    if nx != U32MAX && fuel > 1 {
        lemma_lookup_in_range(leaves, nx as int, child_center2(i, c, w), w / 2, p, (fuel - 1) as nat);
    }
}

/// A fresh octree holds no voxel: every lookup ends at an empty leaf.
pub proof fn lemma_new_octree_is_empty(root: [i64; 3], width: u32, q: [i32; 3])
    ensures
        Octree::spec_new_leaves()[fine_lookup_in(Octree::spec_new_leaves(), root, width, q)].voxel
            == OctreeVoxel::spec_empty(),
{
    let leaves = Octree::spec_new_leaves();
    let c = fine_root(root);
    let w = subunits() * width;
    let i = fine_octant(c, q);
    let nx = leaves[0].children[i as int];
    assert(nx as int == i + 1);
    let c1 = fine_child(i, c, w);
    let i1 = fine_octant(c1, q);
    assert(leaves[nx as int].children[i1 as int] == U32MAX);
    assert(fine_lookup(leaves, nx as int, c1, w / 2, q, 99) == nx as int);
}

/// Whether the voxel `p` lies in the cube of width `w` centred at `c`
/// (sub-voxel units).
pub open spec fn in_cell(c: (int, int, int), w: int, p: [i32; 3]) -> bool {
    &&& c.0 - w / 2 <= subunits() * p[0] < c.0 + w / 2
    &&& c.1 - w / 2 <= subunits() * p[1] < c.1 + w / 2
    &&& c.2 - w / 2 <= subunits() * p[2] < c.2 + w / 2
}

/// Descending keeps the position inside: in a node at least two voxels
/// wide (whose width is a whole number of quarter sub-voxel steps), the
/// child that `get_leaf` picks, centred where `get_new_root` puts it,
/// contains every voxel of its parent that chose it.
pub proof fn lemma_child_contains(c: (int, int, int), w: int, p: [i32; 3])
    requires
        w % 4 == 0,
        w >= 2 * subunits(),
        in_cell(c, w, p),
    ensures
        in_cell(fine_child(fine_octant(c, p), c, w), w / 2, p),
{
    let i = fine_octant(c, p);
    let x: u32 = if subunits() * p[0] >= c.0 { 1 } else { 0 };
    let y: u32 = if subunits() * p[1] >= c.1 { 0 } else { 2 };
    let z: u32 = if subunits() * p[2] >= c.2 { 4 } else { 0 };
    assert(i == x + y + z);
    assert(x <= 1 && (y == 0 || y == 2) && (z == 0 || z == 4));
    assert((i & 1 == 0) == (x == 0) && (i & 2 == 0) == (y == 0) && (i & 4 == 0) == (z == 0)) by (bit_vector)
        requires
            i == x + y + z,
            x <= 1,
            y == 0 || y == 2,
            z == 0 || z == 4,
    ;
    assert(fine_step(w) == w / 4);
}

/// Material seen on either side of `vox_pos` along each axis: component `k`
/// is the occupancy one step down minus the occupancy one step up, so the
/// vector points away from occupied neighbours.
pub open spec fn occupied(o: Octree, p: [i32; 3]) -> int {
    if o.leaves@[lookup_node(o, p)].voxel.id != 0 {
        1
    } else {
        0
    }
}

pub open spec fn spec_gradient(o: Octree, p: [i32; 3]) -> [i32; 3] {
    [
        (occupied(o, [(p[0] - 1) as i32, p[1], p[2]]) - occupied(o, [(p[0] + 1) as i32, p[1], p[2]])) as i32,
        (occupied(o, [p[0], (p[1] - 1) as i32, p[2]]) - occupied(o, [p[0], (p[1] + 1) as i32, p[2]])) as i32,
        (occupied(o, [p[0], p[1], (p[2] - 1) as i32]) - occupied(o, [p[0], p[1], (p[2] + 1) as i32])) as i32,
    ]
}

/// The unnormalised surface normal at `vox_pos`, from the six neighbours.
pub fn voxel_gradient(vox_pos: [i32; 3], octree: &Octree) -> (g: [i32; 3])
    requires
        octree.leaves@.len() >= 1,
        links_valid(octree.leaves@),
        i32::MIN < vox_pos[0] < i32::MAX,
        i32::MIN < vox_pos[1] < i32::MAX,
        i32::MIN < vox_pos[2] < i32::MAX,
    ensures
        g == spec_gradient(*octree, vox_pos),
{
    let x = vox_pos[0];
    let y = vox_pos[1];
    let z = vox_pos[2];
    let voxel_xp = check_for_voxel([x + 1, y, z], octree) as i32;
    let voxel_xm = check_for_voxel([x - 1, y, z], octree) as i32;
    let voxel_yp = check_for_voxel([x, y + 1, z], octree) as i32;
    let voxel_ym = check_for_voxel([x, y - 1, z], octree) as i32;
    let voxel_zp = check_for_voxel([x, y, z + 1], octree) as i32;
    let voxel_zm = check_for_voxel([x, y, z - 1], octree) as i32;
    [-voxel_xp + voxel_xm, -voxel_yp + voxel_ym, -voxel_zp + voxel_zm]
}

/// The resolution at which something `dist` voxels from the camera is
/// stored: finer nearby, coarser far away.
pub open spec fn spec_lod_for_distance(dist: u32) -> u32 {
    if dist <= 128 {
        1
    } else if dist <= 256 {
        2
    } else if dist <= 1024 {
        4
    } else if dist <= 2048 {
        8
    } else {
        16
    }
}

/// The level-of-detail choice of `get_lod`, on the distance in whole voxels.
pub fn lod_for_distance(dist: u32) -> (lod: u32)
    ensures
        lod == spec_lod_for_distance(dist),
{
    match dist {
        0..=128 => 1,
        129..=256 => 2,
        257..=1024 => 4,
        1025..=2048 => 8,
        _ => 16,
    }
}

/// Modifying appends at most eight leaves per level.
pub proof fn lemma_modify_len(leaves: Seq<Leaf>, n: int, path: Seq<u32>, v: OctreeVoxel)
    requires
        leaves_wf(leaves),
        0 <= n < leaves.len(),
        forall|k: int| 0 <= k < path.len() ==> #[trigger] path[k] < 8,
        leaves.len() + 8 * path.len() < U32MAX,
    ensures
        spec_modify(leaves, n, path, v).len() <= leaves.len() + 8 * path.len(),
    decreases path.len(),
{
    if path.len() > 0 {
        let l1 = if leaves[n].is_branch() {
            leaves
        } else {
            lemma_subdivide_wf(leaves, n);
            spec_subdivide(leaves, n)
        };
        assert(all_or_none(l1[n], l1.len() as int));
        let next = l1[n].children[path[0] as int] as int;
        let rest = path.drop_first();
        assert(forall|k: int| 0 <= k < rest.len() ==> rest[k] == path[k + 1]);
        lemma_modify_len(l1, next, rest, v);
    }
}

/// Inserting adds at most 256 leaves.
pub proof fn lemma_insert_growth(leaves: Seq<Leaf>, root: [i64; 3], width: u32, p: [i32; 3], v: OctreeVoxel, lod: u32)
    requires
        leaves_wf(leaves),
        leaves.len() <= MAX_LEAVES,
    ensures
        fine_insert_leaves(leaves, root, width, p, v, lod).len() <= leaves.len() + 256,
{
    lemma_insert_path_bounds(leaves, root, width, p, lod);
    lemma_modify_len(leaves, 0, fine_insert_path(root, width, p, lod as int), v);
}

/// Whether `w` is a power of two: the widths the read-back laws speak of.
pub fn is_pow2(w: u32) -> (b: bool)
    ensures
        b == pow2(w as int),
{
    if w == 0 {
        return false;
    }
    let mut v = w;
    while v > 1
        invariant
            v >= 1,
            pow2(w as int) == pow2(v as int),
        decreases v,
    {
        if v % 2 != 0 {
            return false;
        }
        v = v / 2;
    }
    true
}

/// Whether halving `w` reaches `lod` exactly.
pub fn halving_reaches(w: u32, lod: u32) -> (b: bool)
    ensures
        b == reaches(w as int, lod as int),
{
    let mut v = w;
    while v > lod && v > 0
        invariant
            reaches(w as int, lod as int) == reaches(v as int, lod as int),
        decreases v,
    {
        v = v / 2;
    }
    v == lod
}

impl Octree {
    /// Whether the leaf array is non-empty and every child index is absent
    /// or names a leaf, as lookups need.
    pub fn links_ok(&self) -> (b: bool)
        ensures
            b == (self.leaves@.len() >= 1 && links_valid(self.leaves@)),
    {
        let len = self.leaves.len();
        if len < 1 {
            return false;
        }
        let mut n: usize = 0;
        while n < len
            invariant
                len == self.leaves@.len(),
                n <= len,
                forall|m: int, j: int|
                    0 <= m < n && 0 <= j < 8 ==> #[trigger] self.leaves@[m].children[j] == U32MAX
                        || (self.leaves@[m].children[j] as int) < len,
            decreases len - n,
        {
            let mut j: usize = 0;
            while j < 8
                invariant
                    len == self.leaves@.len(),
                    n < len,
                    j <= 8,
                    forall|m: int, i: int|
                        0 <= m < n && 0 <= i < 8 ==> #[trigger] self.leaves@[m].children[i] == U32MAX
                            || (self.leaves@[m].children[i] as int) < len,
                    forall|i: int|
                        0 <= i < j ==> #[trigger] self.leaves@[n as int].children[i] == U32MAX || (
                        self.leaves@[n as int].children[i] as int) < len,
                decreases 8 - j,
            {
                let c = self.leaves[n].children[j];
                if c != U32MAX && c as usize >= len {
                    return false;
                }
                j = j + 1;
            }
            n = n + 1;
        }
        true
    }

    /// Whether `insert` accepts this octree at resolution `lod` (scans the
    /// whole leaf array).
    pub fn accepts(&self, lod: u32) -> (b: bool)
        ensures
            b == self.insertable(lod),
    {
        let len = self.leaves.len();
        if len < 1 || len > MAX_LEAVES {
            return false;
        }
        if !halving_reaches(self.width / 2, lod) {
            return false;
        }
        let w = self.width as i64;
        let lim: i64 = 0x4000_0000_0000_0000;
        let mut k: usize = 0;
        while k < 3
            invariant
                k <= 3,
                w == self.width as i64,
                lim == 0x4000_0000_0000_0000,
                forall|j: int|
                    0 <= j < k ==> -0x4000_0000_0000_0000 + w <= #[trigger] self.root[j]
                        <= 0x4000_0000_0000_0000 - w,
            decreases 3 - k,
        {
            if self.root[k] < -lim + w || self.root[k] > lim - w {
                return false;
            }
            k = k + 1;
        }
        assert(root_fits(self.root, self.width as int));
        if self.leaves[0].children[0] == U32MAX {
            return false;
        }
        let mut n: usize = 0;
        while n < len
            invariant
                len == self.leaves@.len(),
                len <= MAX_LEAVES,
                n <= len,
                forall|m: int| 0 <= m < n ==> #[trigger] all_or_none(self.leaves@[m], len as int),
            decreases len - n,
        {
            let children = self.leaves[n].children;
            let none = children[0] == U32MAX;
            let mut j: usize = 0;
            while j < 8
                invariant
                    j <= 8,
                    n < len,
                    len <= MAX_LEAVES,
                    children == self.leaves@[n as int].children,
                    len == self.leaves@.len(),
                    none == (children[0] == U32MAX),
                    forall|i: int|
                        0 <= i < j ==> if none {
                            #[trigger] children[i] == U32MAX
                        } else {
                            (children[i] as int) < len
                        },
                decreases 8 - j,
            {
                if none {
                    if children[j] != U32MAX {
                        proof {
                            assert(!all_or_none(self.leaves@[n as int], len as int));
                        }
                        return false;
                    }
                } else if children[j] as usize >= len {
                    proof {
                        assert(!all_or_none(self.leaves@[n as int], len as int));
                    }
                    return false;
                }
                j = j + 1;
            }
            n = n + 1;
        }
        true
    }
}

// ------------------------------------------------------------ tree shape

/// Following `path` from node `n`: the node reached, or `None` when a child
/// on the way is absent.
pub open spec fn walk(leaves: Seq<Leaf>, n: int, path: Seq<u32>) -> Option<int>
    decreases path.len(),
{
    if path.len() == 0 {
        Some(n)
    } else {
        let c = leaves[n].children[path[0] as int];
        if c == U32MAX {
            None
        } else {
            walk(leaves, c as int, path.drop_first())
        }
    }
}

/// One step from node `a` towards child `i`.
pub open spec fn step(leaves: Seq<Leaf>, a: Option<int>, i: u32) -> Option<int> {
    match a {
        Some(n) => if leaves[n].children[i as int] == U32MAX {
            None
        } else {
            Some(leaves[n].children[i as int] as int)
        },
        None => None,
    }
}

/// The leaves form a tree under node 0: every child comes after its
/// parent, and no two child links name the same leaf.
pub open spec fn tree_like(leaves: Seq<Leaf>) -> bool {
    &&& forall|n: int, j: int|
        0 <= n < leaves.len() && 0 <= j < 8 && #[trigger] leaves[n].children[j] != U32MAX
            ==> leaves[n].children[j] > n
    &&& forall|n1: int, j1: int, n2: int, j2: int|
        0 <= n1 < leaves.len() && 0 <= n2 < leaves.len() && 0 <= j1 < 8 && 0 <= j2 < 8
            && #[trigger] leaves[n1].children[j1] != U32MAX && leaves[n1].children[j1]
            == #[trigger] leaves[n2].children[j2] ==> n1 == n2 && j1 == j2
}

/// `p` lies in the cube of width `w` with doubled centre `c`.
pub open spec fn in_cube(c: (int, int, int), w: int, p: [i32; 3]) -> bool {
    &&& c.0 - w <= 2 * p[0] < c.0 + w
    &&& c.1 - w <= 2 * p[1] < c.1 + w
    &&& c.2 - w <= 2 * p[2] < c.2 + w
}

/// The leaves hold `v` at `p`: the one-voxel path of `p` exists down to an
/// undivided leaf that holds `v`.
pub open spec fn holds_at(leaves: Seq<Leaf>, root: [i64; 3], width: u32, p: [i32; 3], v: OctreeVoxel) -> bool {
    let t = walk(leaves, 0, insert_path(doubled(root), width as int, p, 1));
    &&& t is Some
    &&& 0 <= t->0 < leaves.len()
    &&& !leaves[t->0].is_branch()
    &&& leaves[t->0].voxel == v
}

proof fn lemma_walk_snoc(leaves: Seq<Leaf>, n: int, path: Seq<u32>, i: u32)
    ensures
        walk(leaves, n, path.push(i)) == step(leaves, walk(leaves, n, path), i),
    decreases path.len(),
{
    if path.len() == 0 {
        assert(path.push(i).drop_first() =~= Seq::<u32>::empty());
        assert(path.push(i)[0] == i);
        let c = leaves[n].children[i as int];
        assert(walk(leaves, c as int, Seq::<u32>::empty()) == Some(c as int));
    } else {
        let c = leaves[n].children[path[0] as int];
        assert(path.push(i)[0] == path[0]);
        assert(path.push(i).drop_first() =~= path.drop_first().push(i));
        if c != U32MAX {
            lemma_walk_snoc(leaves, c as int, path.drop_first(), i);
            assert(walk(leaves, n, path.push(i)) == walk(leaves, c as int, path.drop_first().push(i)));
            assert(walk(leaves, n, path) == walk(leaves, c as int, path.drop_first()));
        }
    }
}

/// Two walks from the root that reach the same leaf follow the same path.
proof fn lemma_walk_injective(leaves: Seq<Leaf>, p1: Seq<u32>, p2: Seq<u32>)
    requires
        leaves_wf(leaves),
        tree_like(leaves),
        forall|k: int| 0 <= k < p1.len() ==> #[trigger] p1[k] < 8,
        forall|k: int| 0 <= k < p2.len() ==> #[trigger] p2[k] < 8,
        walk(leaves, 0, p1) is Some,
        walk(leaves, 0, p1) == walk(leaves, 0, p2),
    ensures
        p1 == p2,
    decreases p1.len() + p2.len(),
{
    lemma_walk_in_range(leaves, 0, p1);
    lemma_walk_in_range(leaves, 0, p2);
    if p1.len() == 0 && p2.len() == 0 {
        assert(p1 =~= p2);
    } else if p1.len() == 0 || p2.len() == 0 {
        let q = if p1.len() == 0 {
            p2
        } else {
            p1
        };
        assert(q =~= q.drop_last().push(q.last()));
        lemma_walk_snoc(leaves, 0, q.drop_last(), q.last());
        let a = walk(leaves, 0, q.drop_last());
        lemma_walk_in_range(leaves, 0, q.drop_last());
        assert(leaves[a->0].children[q.last() as int] > a->0);
    } else {
        assert(p1 =~= p1.drop_last().push(p1.last()));
        assert(p2 =~= p2.drop_last().push(p2.last()));
        lemma_walk_snoc(leaves, 0, p1.drop_last(), p1.last());
        lemma_walk_snoc(leaves, 0, p2.drop_last(), p2.last());
        lemma_walk_in_range(leaves, 0, p1.drop_last());
        lemma_walk_in_range(leaves, 0, p2.drop_last());
        let a1 = walk(leaves, 0, p1.drop_last())->0;
        let a2 = walk(leaves, 0, p2.drop_last())->0;
        assert(leaves[a1].children[p1.last() as int] == leaves[a2].children[p2.last() as int]);
        lemma_walk_injective(leaves, p1.drop_last(), p2.drop_last());
    }
}

/// Walks stay inside the leaf array.
proof fn lemma_walk_in_range(leaves: Seq<Leaf>, n: int, path: Seq<u32>)
    requires
        leaves_wf(leaves),
        0 <= n < leaves.len(),
        forall|k: int| 0 <= k < path.len() ==> #[trigger] path[k] < 8,
    ensures
        walk(leaves, n, path) is Some ==> 0 <= walk(leaves, n, path)->0 < leaves.len(),
    decreases path.len(),
{
    if path.len() > 0 {
        assert(all_or_none(leaves[n], leaves.len() as int));
        let c = leaves[n].children[path[0] as int];
        let rest = path.drop_first();
        assert(forall|k: int| 0 <= k < rest.len() ==> rest[k] == path[k + 1]);
        if c != U32MAX {
            lemma_walk_in_range(leaves, c as int, rest);
        }
    }
}

proof fn lemma_octant_bits(c: (int, int, int), p: [i32; 3])
    ensures
        (octant2(c, p) & 1 == 0) == !(2 * p[0] >= c.0),
        (octant2(c, p) & 2 == 0) == (2 * p[1] >= c.1),
        (octant2(c, p) & 4 == 0) == !(2 * p[2] >= c.2),
{
    let i = octant2(c, p);
    let x: u32 = if 2 * p[0] >= c.0 { 1 } else { 0 };
    let y: u32 = if 2 * p[1] >= c.1 { 0 } else { 2 };
    let z: u32 = if 2 * p[2] >= c.2 { 4 } else { 0 };
    assert(i == x + y + z);
    assert((i & 1 == 0) == (x == 0) && (i & 2 == 0) == (y == 0) && (i & 4 == 0) == (z == 0)) by (bit_vector)
        requires
            i == x + y + z,
            x <= 1,
            y == 0 || y == 2,
            z == 0 || z == 4,
    ;
}

/// The child that holds a point of a cube, holds it.
proof fn lemma_child_cube(c: (int, int, int), w: int, p: [i32; 3])
    requires
        in_cube(c, w, p),
        w >= 2,
        w % 2 == 0,
    ensures
        in_cube(child_center2(octant2(c, p), c, w), w / 2, p),
{
    lemma_octant_bits(c, p);
}

/// Two points of a cube with the same one-voxel insertion path are equal.
proof fn lemma_path_determines_point(c: (int, int, int), w: int, p: [i32; 3], q: [i32; 3])
    requires
        pow2(w),
        in_cube(c, w, p),
        in_cube(c, w, q),
        insert_path(c, w, p, 1) == insert_path(c, w, q, 1),
    ensures
        p == q,
    decreases w,
{
    if w <= 1 {
        assert(p[0] == q[0] && p[1] == q[1] && p[2] == q[2]);
        assert(p =~= q);
    } else {
        lemma_pow2_half(w);
        let op = octant2(c, p);
        let oq = octant2(c, q);
        assert(insert_path(c, w, p, 1)[0] == op);
        assert(insert_path(c, w, q, 1)[0] == oq);
        let c1 = child_center2(op, c, w);
        lemma_child_cube(c, w, p);
        lemma_child_cube(c, w, q);
        assert(insert_path(c, w, p, 1).drop_first() =~= insert_path(c1, w / 2, p, 1));
        assert(insert_path(c, w, q, 1).drop_first() =~= insert_path(c1, w / 2, q, 1));
        lemma_path_determines_point(c1, w / 2, p, q);
    }
}

proof fn lemma_subdivide_tree(leaves: Seq<Leaf>, n: int)
    requires
        leaves_wf(leaves),
        tree_like(leaves),
        0 <= n < leaves.len(),
        !leaves[n].is_branch(),
        leaves.len() + 8 < U32MAX,
    ensures
        tree_like(spec_subdivide(leaves, n)),
{
    let l2 = spec_subdivide(leaves, n);
    let len = leaves.len() as int;
    lemma_subdivide_wf(leaves, n);
    assert forall|m: int, j: int|
        0 <= m < l2.len() && 0 <= j < 8 && #[trigger] l2[m].children[j] != U32MAX implies l2[m].children[j]
        > m by {
        if m != n && m < len {
            assert(l2[m] == leaves[m]);
        }
    }
    assert forall|n1: int, j1: int, n2: int, j2: int|
        0 <= n1 < l2.len() && 0 <= n2 < l2.len() && 0 <= j1 < 8 && 0 <= j2 < 8
            && #[trigger] l2[n1].children[j1] != U32MAX && l2[n1].children[j1]
            == #[trigger] l2[n2].children[j2] implies n1 == n2 && j1 == j2 by {
        if n1 < len && n1 != n {
            assert(l2[n1] == leaves[n1]);
            assert(all_or_none(leaves[n1], len));
        }
        if n2 < len && n2 != n {
            assert(l2[n2] == leaves[n2]);
            assert(all_or_none(leaves[n2], len));
        }
        if n1 >= len {
            assert(l2[n1] == Leaf::spec_empty());
        }
        if n2 >= len {
            assert(l2[n2] == Leaf::spec_empty());
        }
    }
}

/// Modifying keeps the leaves a tree.
proof fn lemma_modify_tree(leaves: Seq<Leaf>, n: int, path: Seq<u32>, v: OctreeVoxel)
    requires
        leaves_wf(leaves),
        tree_like(leaves),
        0 <= n < leaves.len(),
        forall|k: int| 0 <= k < path.len() ==> #[trigger] path[k] < 8,
        leaves.len() + 8 * path.len() < U32MAX,
    ensures
        tree_like(spec_modify(leaves, n, path, v)),
    decreases path.len(),
{
    if path.len() == 0 {
        let r = spec_modify(leaves, n, path, v);
        assert forall|m: int| 0 <= m < r.len() implies #[trigger] r[m].children == leaves[m].children by {
        }
    } else {
        let l1 = if leaves[n].is_branch() {
            leaves
        } else {
            lemma_subdivide_wf(leaves, n);
            lemma_subdivide_tree(leaves, n);
            spec_subdivide(leaves, n)
        };
        assert(all_or_none(l1[n], l1.len() as int));
        let next = l1[n].children[path[0] as int] as int;
        let rest = path.drop_first();
        assert(forall|k: int| 0 <= k < rest.len() ==> rest[k] == path[k + 1]);
        lemma_modify_tree(l1, next, rest, v);
    }
}

/// Where insertion lands lies on the walk along its path: after `j` steps,
/// and the node is undivided unless the whole path was walked.
proof fn lemma_land_walk(leaves: Seq<Leaf>, n: int, path: Seq<u32>) -> (j: int)
    requires
        leaves_wf(leaves),
        0 <= n < leaves.len(),
        forall|k: int| 0 <= k < path.len() ==> #[trigger] path[k] < 8,
    ensures
        0 <= j <= path.len(),
        walk(leaves, n, path.take(j)) == Some(land(leaves, n, path)),
        j < path.len() ==> !leaves[land(leaves, n, path)].is_branch(),
    decreases path.len(),
{
    if path.len() == 0 || !leaves[n].is_branch() {
        assert(path.take(0) =~= Seq::<u32>::empty());
        0
    } else {
        assert(all_or_none(leaves[n], leaves.len() as int));
        let c = leaves[n].children[path[0] as int] as int;
        let rest = path.drop_first();
        assert(forall|k: int| 0 <= k < rest.len() ==> rest[k] == path[k + 1]);
        let j1 = lemma_land_walk(leaves, c, rest);
        assert(path.take(j1 + 1).drop_first() =~= rest.take(j1));
        assert(path.take(j1 + 1)[0] == path[0]);
        j1 + 1
    }
}

/// Every prefix of a walk that succeeds succeeds, and every node before the
/// end is subdivided.
proof fn lemma_walk_prefix(leaves: Seq<Leaf>, path: Seq<u32>, k: int)
    requires
        leaves_wf(leaves),
        forall|i: int| 0 <= i < path.len() ==> #[trigger] path[i] < 8,
        walk(leaves, 0, path) is Some,
        0 <= k <= path.len(),
    ensures
        walk(leaves, 0, path.take(k)) is Some,
        0 <= walk(leaves, 0, path.take(k))->0 < leaves.len(),
        k < path.len() ==> leaves[walk(leaves, 0, path.take(k))->0].is_branch(),
    decreases path.len() - k,
{
    let pk = path.take(k);
    assert(forall|i: int| 0 <= i < pk.len() ==> pk[i] == path[i]);
    if k == path.len() {
        assert(pk =~= path);
    } else {
        lemma_walk_prefix(leaves, path, k + 1);
        assert(path.take(k + 1) =~= pk.push(path[k]));
        lemma_walk_snoc(leaves, 0, pk, path[k]);
        lemma_walk_in_range(leaves, 0, pk);
        let a = walk(leaves, 0, pk)->0;
        assert(all_or_none(leaves[a], leaves.len() as int));
    }
    lemma_walk_in_range(leaves, 0, pk);
}

/// A walk that avoids the only changed node `e` is the same afterwards.
proof fn lemma_walk_frame(old_leaves: Seq<Leaf>, new_leaves: Seq<Leaf>, e: int, path: Seq<u32>)
    requires
        leaves_wf(old_leaves),
        forall|i: int| 0 <= i < path.len() ==> #[trigger] path[i] < 8,
        forall|m: int| 0 <= m < old_leaves.len() && m != e ==> #[trigger] new_leaves[m] == old_leaves[m],
        walk(old_leaves, 0, path) is Some,
        forall|k: int| 0 <= k < path.len() ==> walk(old_leaves, 0, #[trigger] path.take(k))->0 != e,
    ensures
        walk(new_leaves, 0, path) == walk(old_leaves, 0, path),
    decreases path.len(),
{
    if path.len() == 0 {
    } else {
        let pre = path.drop_last();
        assert(path =~= pre.push(path.last()));
        lemma_walk_prefix(old_leaves, path, path.len() - 1);
        assert(path.take(path.len() - 1) =~= pre);
        assert forall|k: int| 0 <= k < pre.len() implies walk(old_leaves, 0, #[trigger] pre.take(k))->0 != e by {
            assert(pre.take(k) =~= path.take(k));
        }
        assert(forall|i: int| 0 <= i < pre.len() ==> pre[i] == path[i]);
        lemma_walk_frame(old_leaves, new_leaves, e, pre);
        lemma_walk_snoc(old_leaves, 0, pre, path.last());
        lemma_walk_snoc(new_leaves, 0, pre, path.last());
        let a = walk(old_leaves, 0, pre)->0;
        assert(new_leaves[a] == old_leaves[a]);
    }
}

/// Distinct cells coexist: inserting one voxel into a tree of leaves keeps
/// every other voxel that the tree holds inside the octree's cube.
pub proof fn lemma_distinct_cells_coexist(leaves: Seq<Leaf>, root: [i64; 3], width: u32, p: [i32; 3], v: OctreeVoxel, q: [i32; 3], w: OctreeVoxel)
    requires
        insertable_leaves(leaves, root, width, 1),
        tree_like(leaves),
        in_cube(doubled(root), width as int, p),
        in_cube(doubled(root), width as int, q),
        p != q,
        holds_at(leaves, root, width, p, v),
    ensures
        holds_at(insert_leaves(leaves, root, width, q, w, 1), root, width, p, v),
        tree_like(insert_leaves(leaves, root, width, q, w, 1)),
{
    let l = leaves;
    let c = doubled(root);
    let wd = width as int;
    let pp = insert_path(c, wd, p, 1);
    let qq = insert_path(c, wd, q, 1);
    lemma_two_to_32();
    lemma_levels_bound(wd, 1, 32);
    lemma_path_len(c, wd, p, 1);
    lemma_path_len(c, wd, q, 1);
    lemma_modify_frame(l, 0, qq, w);
    lemma_modify_tree(l, 0, qq, w);
    let e = land(l, 0, qq);
    let j = lemma_land_walk(l, 0, qq);
    assert forall|k: int| 0 <= k <= pp.len() implies walk(l, 0, #[trigger] pp.take(k))->0 != e by {
        lemma_walk_prefix(l, pp, k);
        if walk(l, 0, pp.take(k))->0 == e {
            let a = pp.take(k);
            let b = qq.take(j);
            assert(forall|i: int| 0 <= i < a.len() ==> a[i] == pp[i]);
            assert(forall|i: int| 0 <= i < b.len() ==> b[i] == qq[i]);
            lemma_walk_injective(l, a, b);
            if j < qq.len() {
                assert(a.len() == b.len());
            } else {
                assert(b =~= qq);
                assert(a.len() == pp.len());
                assert(a =~= pp);
                lemma_path_determines_point(c, wd, p, q);
            }
        }
    }
    lemma_walk_frame(l, insert_leaves(leaves, root, width, q, w, 1), e, pp);
    assert(pp.take(pp.len() as int) =~= pp);
}

proof fn lemma_modify_walk(leaves: Seq<Leaf>, n: int, path: Seq<u32>, v: OctreeVoxel)
    requires
        leaves_wf(leaves),
        0 <= n < leaves.len(),
        forall|k: int| 0 <= k < path.len() ==> #[trigger] path[k] < 8,
        leaves.len() + 8 * path.len() < U32MAX,
        !leaves[land(leaves, n, path)].is_branch(),
    ensures
        walk(spec_modify(leaves, n, path, v), n, path) is Some,
        0 <= walk(spec_modify(leaves, n, path, v), n, path)->0 < spec_modify(leaves, n, path, v).len(),
        spec_modify(leaves, n, path, v)[walk(spec_modify(leaves, n, path, v), n, path)->0].voxel == v,
        !spec_modify(leaves, n, path, v)[walk(spec_modify(leaves, n, path, v), n, path)->0].is_branch(),
    decreases path.len(),
{
    let r = spec_modify(leaves, n, path, v);
    if path.len() == 0 {
        assert(all_or_none(leaves[n], leaves.len() as int));
    } else {
        let l1 = if leaves[n].is_branch() {
            leaves
        } else {
            lemma_subdivide_wf(leaves, n);
            spec_subdivide(leaves, n)
        };
        assert(all_or_none(l1[n], l1.len() as int));
        let next = l1[n].children[path[0] as int] as int;
        let rest = path.drop_first();
        assert(forall|k: int| 0 <= k < rest.len() ==> rest[k] == path[k + 1]);
        if !leaves[n].is_branch() {
            assert(l1[next] == Leaf::spec_empty());
        }
        lemma_modify_keeps_branches(l1, next, rest, v, n);
        lemma_modify_walk(l1, next, rest, v);
    }
}

proof fn lemma_walk_lookup(leaves: Seq<Leaf>, n: int, c: (int, int, int), w: int, p: [i32; 3], lod: int, fuel: nat)
    requires
        leaves_wf(leaves),
        0 <= n < leaves.len(),
        walk(leaves, n, insert_path(c, w, p, lod)) is Some,
        !leaves[walk(leaves, n, insert_path(c, w, p, lod))->0].is_branch(),
        fuel > levels(w, lod),
    ensures
        spec_lookup(leaves, n, c, w, p, fuel) == walk(leaves, n, insert_path(c, w, p, lod))->0,
    decreases w,
{
    let path = insert_path(c, w, p, lod);
    lemma_path_len(c, w, p, lod);
    assert(all_or_none(leaves[n], leaves.len() as int));
    if !(w <= lod || w <= 0) {
        let o = octant2(c, p);
        let c1 = child_center2(o, c, w);
        let rest = insert_path(c1, w / 2, p, lod);
        assert(path.drop_first() =~= rest);
        let nx = leaves[n].children[o as int] as int;
        lemma_walk_lookup(leaves, nx, c1, w / 2, p, lod, (fuel - 1) as nat);
    }
}

/// Writing: inserting `v` at `p` at full resolution into a tree of leaves
/// makes the leaves hold `v` at `p`, unless the insertion lands on a node
/// that is already subdivided, and keeps them a tree.
pub proof fn lemma_insert_holds(leaves: Seq<Leaf>, root: [i64; 3], width: u32, p: [i32; 3], v: OctreeVoxel)
    requires
        insertable_leaves(leaves, root, width, 1),
        tree_like(leaves),
        !leaves[landing_leaves(leaves, root, width, p, 1)].is_branch(),
    ensures
        holds_at(insert_leaves(leaves, root, width, p, v, 1), root, width, p, v),
        tree_like(insert_leaves(leaves, root, width, p, v, 1)),
{
    let c = doubled(root);
    let path = insert_path(c, width as int, p, 1);
    lemma_two_to_32();
    lemma_levels_bound(width as int, 1, 32);
    lemma_path_len(c, width as int, p, 1);
    lemma_modify_walk(leaves, 0, path, v);
    lemma_modify_tree(leaves, 0, path, v);
}

/// Reading: where the leaves hold `v` at `p`, a lookup of `p` finds `v`.
pub proof fn lemma_holds_reads(leaves: Seq<Leaf>, root: [i64; 3], width: u32, p: [i32; 3], v: OctreeVoxel)
    requires
        leaves_wf(leaves),
        holds_at(leaves, root, width, p, v),
    ensures
        leaves[lookup_in(leaves, root, width, p)].voxel == v,
{
    lemma_two_to_32();
    lemma_levels_bound(width as int, 1, 32);
    lemma_walk_lookup(leaves, 0, doubled(root), width as int, p, 1, 100);
}

/// A fresh octree's leaves form a tree.
pub proof fn lemma_new_tree_like()
    ensures
        tree_like(Octree::spec_new_leaves()),
        leaves_wf(Octree::spec_new_leaves()),
{
    let l = Octree::spec_new_leaves();
    assert forall|n: int| 0 <= n < l.len() implies #[trigger] all_or_none(l[n], l.len() as int) by {
        if n == 0 {
            assert(forall|j: int| 0 <= j < 8 ==> (l[n].children[j] as int) < 9);
        }
    }
    assert forall|n1: int, j1: int, n2: int, j2: int|
        0 <= n1 < l.len() && 0 <= n2 < l.len() && 0 <= j1 < 8 && 0 <= j2 < 8
            && #[trigger] l[n1].children[j1] != U32MAX && l[n1].children[j1]
            == #[trigger] l[n2].children[j2] implies n1 == n2 && j1 == j2 by {
        if n1 > 0 {
            assert(l[n1] == Leaf::spec_empty());
        }
        if n2 > 0 {
            assert(l[n2] == Leaf::spec_empty());
        }
        assert(l[0].children[j1] == j1 + 1);
        assert(l[0].children[j2] == j2 + 1);
    }
}

/// Modifying keeps a leaf array well formed.
proof fn lemma_modify_wf(leaves: Seq<Leaf>, n: int, path: Seq<u32>, v: OctreeVoxel)
    requires
        leaves_wf(leaves),
        0 <= n < leaves.len(),
        forall|k: int| 0 <= k < path.len() ==> #[trigger] path[k] < 8,
        leaves.len() + 8 * path.len() < U32MAX,
    ensures
        leaves_wf(spec_modify(leaves, n, path, v)),
    decreases path.len(),
{
    if path.len() == 0 {
        let r = spec_modify(leaves, n, path, v);
        assert forall|m: int| 0 <= m < r.len() implies #[trigger] all_or_none(r[m], r.len() as int) by {
            assert(all_or_none(leaves[m], leaves.len() as int));
        }
    } else {
        let l1 = if leaves[n].is_branch() {
            leaves
        } else {
            lemma_subdivide_wf(leaves, n);
            spec_subdivide(leaves, n)
        };
        assert(all_or_none(l1[n], l1.len() as int));
        let next = l1[n].children[path[0] as int] as int;
        let rest = path.drop_first();
        assert(forall|k: int| 0 <= k < rest.len() ==> rest[k] == path[k + 1]);
        lemma_modify_wf(l1, next, rest, v);
    }
}

/// Nodes appended by modifying have no children among the older nodes.
proof fn lemma_modify_fresh_links(leaves: Seq<Leaf>, n: int, path: Seq<u32>, v: OctreeVoxel)
    requires
        leaves_wf(leaves),
        0 <= n < leaves.len(),
        forall|k: int| 0 <= k < path.len() ==> #[trigger] path[k] < 8,
        leaves.len() + 8 * path.len() < U32MAX,
    ensures
        forall|a: int, j: int|
            leaves.len() <= a < spec_modify(leaves, n, path, v).len() && 0 <= j < 8 ==> #[trigger] spec_modify(
                leaves,
                n,
                path,
                v,
            )[a].children[j] == U32MAX || spec_modify(leaves, n, path, v)[a].children[j] >= leaves.len(),
    decreases path.len(),
{
    if path.len() > 0 {
        let l1 = if leaves[n].is_branch() {
            leaves
        } else {
            lemma_subdivide_wf(leaves, n);
            spec_subdivide(leaves, n)
        };
        assert(all_or_none(l1[n], l1.len() as int));
        let next = l1[n].children[path[0] as int] as int;
        let rest = path.drop_first();
        assert(forall|k: int| 0 <= k < rest.len() ==> rest[k] == path[k + 1]);
        lemma_modify_fresh_links(l1, next, rest, v);
        lemma_modify_frame(l1, next, rest, v);
        let r = spec_modify(leaves, n, path, v);
        assert forall|a: int, j: int| leaves.len() <= a < r.len() && 0 <= j < 8 implies #[trigger] r[a].children[j]
            == U32MAX || r[a].children[j] >= leaves.len() by {
            if a < l1.len() {
                let e = land(l1, next, rest);
                assert(l1[a] == Leaf::spec_empty());
                assert(!l1[a].is_branch());
                if a != e {
                    assert(r[a] == l1[a]);
                    assert(r[a].children[j] == U32MAX);
                } else {
                    assert(r[a].children[j] == U32MAX || r[a].children[j] >= l1.len());
                }
            } else {
                assert(r[a].children[j] == U32MAX || r[a].children[j] >= l1.len());
            }
        }
    }
}

/// Every link that modifying leaves into an old node was there before.
proof fn lemma_modify_old_links(leaves: Seq<Leaf>, n: int, path: Seq<u32>, v: OctreeVoxel, a: int, j: int)
    requires
        leaves_wf(leaves),
        0 <= n < leaves.len(),
        forall|k: int| 0 <= k < path.len() ==> #[trigger] path[k] < 8,
        leaves.len() + 8 * path.len() < U32MAX,
        0 <= a < spec_modify(leaves, n, path, v).len(),
        0 <= j < 8,
        spec_modify(leaves, n, path, v)[a].children[j] != U32MAX,
        spec_modify(leaves, n, path, v)[a].children[j] < leaves.len(),
    ensures
        a < leaves.len(),
        leaves[a].children[j] == spec_modify(leaves, n, path, v)[a].children[j],
{
    lemma_modify_fresh_links(leaves, n, path, v);
    lemma_modify_frame(leaves, n, path, v);
    let e = land(leaves, n, path);
    if a == e && leaves[e].is_branch() {
    }
}

/// A walk in the modified leaves that ends at an old node is a walk of the
/// old leaves.
proof fn lemma_walk_back(leaves: Seq<Leaf>, path: Seq<u32>, v: OctreeVoxel, p: Seq<u32>)
    requires
        leaves_wf(leaves),
        forall|k: int| 0 <= k < path.len() ==> #[trigger] path[k] < 8,
        forall|k: int| 0 <= k < p.len() ==> #[trigger] p[k] < 8,
        leaves.len() + 8 * path.len() < U32MAX,
        walk(spec_modify(leaves, 0, path, v), 0, p) is Some,
        walk(spec_modify(leaves, 0, path, v), 0, p)->0 < leaves.len(),
    ensures
        walk(leaves, 0, p) == walk(spec_modify(leaves, 0, path, v), 0, p),
    decreases p.len(),
{
    let r = spec_modify(leaves, 0, path, v);
    lemma_modify_wf(leaves, 0, path, v);
    if p.len() > 0 {
        let pre = p.drop_last();
        assert(p =~= pre.push(p.last()));
        assert(forall|k: int| 0 <= k < pre.len() ==> pre[k] == p[k]);
        lemma_walk_snoc(r, 0, pre, p.last());
        lemma_walk_snoc(leaves, 0, pre, p.last());
        lemma_walk_in_range(r, 0, pre);
        let a = walk(r, 0, pre)->0;
        lemma_modify_old_links(leaves, 0, path, v, a, p.last() as int);
        lemma_walk_back(leaves, path, v, pre);
    }
}

/// Every node that is subdivided after modifying was subdivided before or
/// lies strictly inside the modified path.
proof fn lemma_modify_new_branches(leaves: Seq<Leaf>, n: int, path: Seq<u32>, v: OctreeVoxel, m: int) -> (d: int)
    requires
        leaves_wf(leaves),
        0 <= n < leaves.len(),
        forall|k: int| 0 <= k < path.len() ==> #[trigger] path[k] < 8,
        leaves.len() + 8 * path.len() < U32MAX,
        0 <= m < spec_modify(leaves, n, path, v).len(),
        spec_modify(leaves, n, path, v)[m].is_branch(),
    ensures
        (m < leaves.len() && leaves[m].is_branch()) || (0 <= d < path.len() && walk(
            spec_modify(leaves, n, path, v),
            n,
            path.take(d),
        ) == Some(m)),
    decreases path.len(),
{
    let r = spec_modify(leaves, n, path, v);
    if path.len() == 0 {
        0
    } else {
        let l1 = if leaves[n].is_branch() {
            leaves
        } else {
            lemma_subdivide_wf(leaves, n);
            spec_subdivide(leaves, n)
        };
        assert(all_or_none(l1[n], l1.len() as int));
        let next = l1[n].children[path[0] as int] as int;
        let rest = path.drop_first();
        assert(forall|k: int| 0 <= k < rest.len() ==> rest[k] == path[k + 1]);
        lemma_modify_keeps_branches(l1, next, rest, v, n);
        let d1 = lemma_modify_new_branches(l1, next, rest, v, m);
        if m < l1.len() && l1[m].is_branch() {
            if m < leaves.len() && leaves[m].is_branch() {
                0
            } else {
                if m < leaves.len() {
                    assert(m == n);
                } else {
                    assert(l1[m] == Leaf::spec_empty());
                }
                assert(path.take(0) =~= Seq::<u32>::empty());
                0
            }
        } else {
            assert(path.take(d1 + 1).drop_first() =~= rest.take(d1));
            assert(path.take(d1 + 1)[0] == path[0]);
            d1 + 1
        }
    }
}

/// Every path of `len` steps that a tree walks down ends at an undivided
/// leaf: no node one voxel wide or smaller is subdivided.
pub open spec fn unit_cells_undivided(leaves: Seq<Leaf>, len: nat) -> bool {
    forall|p: Seq<u32>|
        p.len() == len && (forall|k: int| 0 <= k < p.len() ==> #[trigger] p[k] < 8) && #[trigger] walk(
            leaves,
            0,
            p,
        ) is Some ==> !leaves[walk(leaves, 0, p)->0].is_branch()
}

/// When no one-voxel node is subdivided, an insertion at full resolution
/// lands on an undivided node.
pub proof fn lemma_unit_cells_landing(leaves: Seq<Leaf>, root: [i64; 3], width: u32, p: [i32; 3])
    requires
        insertable_leaves(leaves, root, width, 1),
        unit_cells_undivided(leaves, levels(width as int, 1)),
    ensures
        !leaves[landing_leaves(leaves, root, width, p, 1)].is_branch(),
{
    let path = insert_path(doubled(root), width as int, p, 1);
    lemma_path_len(doubled(root), width as int, p, 1);
    let j = lemma_land_walk(leaves, 0, path);
    if j == path.len() {
        assert(path.take(j) =~= path);
    }
}

/// Inserting at full resolution keeps every one-voxel node undivided.
pub proof fn lemma_insert_keeps_unit_cells(leaves: Seq<Leaf>, root: [i64; 3], width: u32, q: [i32; 3], w: OctreeVoxel)
    requires
        insertable_leaves(leaves, root, width, 1),
        tree_like(leaves),
        unit_cells_undivided(leaves, levels(width as int, 1)),
    ensures
        unit_cells_undivided(insert_leaves(leaves, root, width, q, w, 1), levels(width as int, 1)),
{
    let l = leaves;
    let c = doubled(root);
    let wd = width as int;
    let qq = insert_path(c, wd, q, 1);
    let r = insert_leaves(leaves, root, width, q, w, 1);
    lemma_two_to_32();
    lemma_levels_bound(wd, 1, 32);
    lemma_path_len(c, wd, q, 1);
    lemma_modify_wf(l, 0, qq, w);
    lemma_modify_tree(l, 0, qq, w);
    lemma_modify_frame(l, 0, qq, w);
    assert forall|p: Seq<u32>|
        p.len() == levels(wd, 1) && (forall|k: int| 0 <= k < p.len() ==> #[trigger] p[k] < 8) && #[trigger] walk(
            r,
            0,
            p,
        ) is Some implies !r[walk(r, 0, p)->0].is_branch() by {
        lemma_walk_in_range(r, 0, p);
        let m = walk(r, 0, p)->0;
        if r[m].is_branch() {
            let d = lemma_modify_new_branches(l, 0, qq, w, m);
            if m < l.len() && l[m].is_branch() {
                lemma_walk_back(l, qq, w, p);
                assert(walk(l, 0, p) == Some(m));
            } else {
                let b = qq.take(d);
                assert(forall|i: int| 0 <= i < b.len() ==> b[i] == qq[i]);
                lemma_walk_injective(r, p, b);
            }
        }
    }
}

/// A fresh octree wider than one voxel has no subdivided one-voxel node.
pub proof fn lemma_new_unit_cells(width: u32)
    requires
        levels(width as int, 1) >= 1,
    ensures
        unit_cells_undivided(Octree::spec_new_leaves(), levels(width as int, 1)),
{
    let l = Octree::spec_new_leaves();
    assert forall|p: Seq<u32>|
        p.len() == levels(width as int, 1) && (forall|k: int| 0 <= k < p.len() ==> #[trigger] p[k] < 8)
            && #[trigger] walk(l, 0, p) is Some implies !l[walk(l, 0, p)->0].is_branch() by {
        let c = l[0].children[p[0] as int];
        assert(c as int == p[0] + 1);
        assert(l[c as int] == Leaf::spec_empty());
        let rest = p.drop_first();
        assert(walk(l, 0, p) == walk(l, c as int, rest));
        if rest.len() > 0 {
            assert(l[c as int].children[rest[0] as int] == U32MAX);
            assert(walk(l, c as int, rest) is None);
        } else {
            assert(walk(l, c as int, rest) == Some(c as int));
        }
    }
}

/// The leaves after the writes `ws`, in order, each at full resolution.
pub open spec fn insert_all(leaves: Seq<Leaf>, root: [i64; 3], width: u32, ws: Seq<([i32; 3], OctreeVoxel)>) -> Seq<
    Leaf,
>
    decreases ws.len(),
{
    if ws.len() == 0 {
        leaves
    } else {
        fine_insert_leaves(insert_all(leaves, root, width, ws.drop_last()), root, width, ws.last().0, ws.last().1, 1)
    }
}

/// Write `i` is the last write among `ws` to its position.
pub open spec fn last_write(ws: Seq<([i32; 3], OctreeVoxel)>, i: int) -> bool {
    &&& 0 <= i < ws.len()
    &&& forall|j: int| i < j < ws.len() ==> #[trigger] ws[j].0 != ws[i].0
}

/// Reading back a sequence of writes: after writing voxels one by one at
/// full resolution at positions inside the octree's cube, a lookup of each
/// written position finds the voxel written there last; the leaves stay a
/// well-formed tree with no subdivided one-voxel node, and each write adds
/// at most 256 leaves.
pub proof fn lemma_writes_read_back(leaves: Seq<Leaf>, root: [i64; 3], width: u32, ws: Seq<([i32; 3], OctreeVoxel)>)
    requires
        insertable_leaves(leaves, root, width, 1),
        tree_like(leaves),
        unit_cells_undivided(leaves, levels(width as int, 1)),
        leaves.len() + 256 * ws.len() <= MAX_LEAVES,
        forall|i: int| 0 <= i < ws.len() ==> in_cube(doubled(root), width as int, #[trigger] ws[i].0),
    ensures
        insertable_leaves(insert_all(leaves, root, width, ws), root, width, 1),
        tree_like(insert_all(leaves, root, width, ws)),
        unit_cells_undivided(insert_all(leaves, root, width, ws), levels(width as int, 1)),
        insert_all(leaves, root, width, ws).len() <= leaves.len() + 256 * ws.len(),
        forall|i: int|
            #![trigger ws[i]]
            last_write(ws, i) ==> holds_at(insert_all(leaves, root, width, ws), root, width, ws[i].0, ws[i].1)
                && insert_all(leaves, root, width, ws)[fine_lookup_in(
                insert_all(leaves, root, width, ws),
                root,
                width,
                ws[i].0,
            )].voxel == ws[i].1,
    decreases ws.len(),
{
    if ws.len() > 0 {
        let pre = ws.drop_last();
        assert(forall|i: int| 0 <= i < pre.len() ==> pre[i] == ws[i]);
        lemma_writes_read_back(leaves, root, width, pre);
        let r0 = insert_all(leaves, root, width, pre);
        let q = ws.last().0;
        let w = ws.last().1;
        let r = insert_all(leaves, root, width, ws);
        lemma_insert_agrees(r0, root, width, q, w, 1);
        assert(r == insert_leaves(r0, root, width, q, w, 1));
        let path = insert_path(doubled(root), width as int, q, 1);
        lemma_two_to_32();
        lemma_levels_bound(width as int, 1, 32);
        lemma_path_len(doubled(root), width as int, q, 1);
        lemma_insert_growth(r0, root, width, q, w, 1);
        lemma_modify_wf(r0, 0, path, w);
        lemma_unit_cells_landing(r0, root, width, q);
        lemma_insert_holds(r0, root, width, q, w);
        lemma_insert_keeps_unit_cells(r0, root, width, q, w);
        assert(in_cube(doubled(root), width as int, ws[ws.len() - 1].0));
        assert forall|i: int| #![trigger ws[i]] last_write(ws, i) implies holds_at(r, root, width, ws[i].0, ws[i].1)
            && r[fine_lookup_in(r, root, width, ws[i].0)].voxel == ws[i].1 by {
            lemma_lookups_agree(r, root, width, ws[i].0);
            if i < ws.len() - 1 {
                assert(last_write(pre, i));
                assert(pre[i] == ws[i]);
                assert(ws[ws.len() - 1].0 != ws[i].0);
                lemma_distinct_cells_coexist(r0, root, width, ws[i].0, ws[i].1, q, w);
            }
            lemma_holds_reads(r, root, width, ws[i].0, ws[i].1);
        }
    }
}

/// Writing twice along the same path: the second write replaces the first
/// voxel, and the subdivisions of the first are reused.
proof fn lemma_modify_twice(leaves: Seq<Leaf>, n: int, path: Seq<u32>, v1: OctreeVoxel, v2: OctreeVoxel)
    requires
        leaves_wf(leaves),
        0 <= n < leaves.len(),
        forall|k: int| 0 <= k < path.len() ==> #[trigger] path[k] < 8,
        leaves.len() + 8 * path.len() < U32MAX,
    ensures
        spec_modify(spec_modify(leaves, n, path, v1), n, path, v2) == spec_modify(leaves, n, path, v2),
    decreases path.len(),
{
    if path.len() == 0 {
        assert(spec_modify(spec_modify(leaves, n, path, v1), n, path, v2) =~= spec_modify(leaves, n, path, v2));
    } else {
        let l1 = if leaves[n].is_branch() {
            leaves
        } else {
            lemma_subdivide_wf(leaves, n);
            spec_subdivide(leaves, n)
        };
        assert(all_or_none(l1[n], l1.len() as int));
        let next = l1[n].children[path[0] as int] as int;
        let rest = path.drop_first();
        assert(forall|k: int| 0 <= k < rest.len() ==> rest[k] == path[k + 1]);
        let m = spec_modify(l1, next, rest, v1);
        assert(m == spec_modify(leaves, n, path, v1));
        lemma_modify_keeps_branches(l1, next, rest, v1, n);
        assert(m[n].is_branch());
        assert(spec_modify(m, n, path, v2) == spec_modify(m, next, rest, v2));
        lemma_modify_twice(l1, next, rest, v1, v2);
    }
}

proof fn lemma_insert_path_bounds(leaves: Seq<Leaf>, root: [i64; 3], width: u32, p: [i32; 3], lod: u32)
    requires
        leaves.len() <= MAX_LEAVES,
    ensures
        forall|k: int|
            0 <= k < fine_insert_path(root, width, p, lod as int).len() ==> #[trigger] fine_insert_path(
                root,
                width,
                p,
                lod as int,
            )[k] < 8,
        fine_insert_path(root, width, p, lod as int).len() <= 32,
        leaves.len() + 8 * fine_insert_path(root, width, p, lod as int).len() < U32MAX,
{
    let c = fine_root(root);
    let w = subunits() * width;
    let o = fine_octant(c, p);
    let rest = fine_path(fine_child(o, c, w), w / 2, p, lod as int);
    let path = fine_insert_path(root, width, p, lod as int);
    lemma_fine_path_len(fine_child(o, c, w), w / 2, p, lod as int);
    lemma_halve_floor(w);
    vstd::arithmetic::div_mod::lemma_div_multiples_vanish(width as int, subunits());
    lemma_two_to_32();
    assert(two_to(32) == 2 * two_to(31));
    lemma_levels_bound((width / 2) as int, lod as int, 31);
    assert(path.len() == 1 + rest.len());
    assert forall|k: int| 0 <= k < path.len() implies #[trigger] path[k] < 8 by {
        if k > 0 {
            assert(path[k] == rest[k - 1]);
        }
    }
}

/// Overwriting leaves no trace: inserting `v2` where `v1` was just inserted
/// at the same resolution gives the leaves that inserting `v2` alone gives,
/// the same leaves at the same indices; no leaves are added twice.
pub proof fn lemma_insert_overwrites(o: Octree, p: [i32; 3], v1: OctreeVoxel, v2: OctreeVoxel, lod: u32)
    requires
        o.insertable(lod),
    ensures
        fine_insert_leaves(o.spec_insert(p, v1, lod), o.root, o.width, p, v2, lod) == o.spec_insert(p, v2, lod),
{
    lemma_insert_path_bounds(o.leaves@, o.root, o.width, p, lod);
    lemma_modify_twice(o.leaves@, 0, fine_insert_path(o.root, o.width, p, lod as int), v1, v2);
}

/// Inserting the same voxel at the same place twice changes nothing the
/// first insertion did not: the second insertion leaves the leaves as they
/// were.
pub proof fn lemma_insert_twice(o: Octree, p: [i32; 3], v: OctreeVoxel, lod: u32)
    requires
        o.insertable(lod),
    ensures
        fine_insert_leaves(o.spec_insert(p, v, lod), o.root, o.width, p, v, lod) == o.spec_insert(p, v, lod),
{
    lemma_insert_overwrites(o, p, v, v, lod);
}

/// Modifying changes the voxel of no node but the one the path ends at:
/// every other node keeps its old voxel or is a new, empty leaf.
proof fn lemma_modify_voxels(leaves: Seq<Leaf>, n: int, path: Seq<u32>, v: OctreeVoxel)
    requires
        leaves_wf(leaves),
        0 <= n < leaves.len(),
        forall|k: int| 0 <= k < path.len() ==> #[trigger] path[k] < 8,
        leaves.len() + 8 * path.len() < U32MAX,
    ensures
        forall|m: int|
            0 <= m < spec_modify(leaves, n, path, v).len() ==> walk(spec_modify(leaves, n, path, v), n, path)
                == Some(m) || (m < leaves.len() && #[trigger] spec_modify(leaves, n, path, v)[m].voxel
                == leaves[m].voxel) || spec_modify(leaves, n, path, v)[m].voxel == OctreeVoxel::spec_empty(),
    decreases path.len(),
{
    let r = spec_modify(leaves, n, path, v);
    if path.len() > 0 {
        let l1 = if leaves[n].is_branch() {
            leaves
        } else {
            lemma_subdivide_wf(leaves, n);
            spec_subdivide(leaves, n)
        };
        assert(all_or_none(l1[n], l1.len() as int));
        let next = l1[n].children[path[0] as int] as int;
        let rest = path.drop_first();
        assert(forall|k: int| 0 <= k < rest.len() ==> rest[k] == path[k + 1]);
        lemma_modify_voxels(l1, next, rest, v);
        lemma_modify_keeps_branches(l1, next, rest, v, n);
        assert(walk(r, n, path) == walk(r, next, rest));
        assert forall|m: int| 0 <= m < r.len() implies walk(r, n, path) == Some(m) || (m < leaves.len()
            && #[trigger] r[m].voxel == leaves[m].voxel) || r[m].voxel == OctreeVoxel::spec_empty() by {
            if m < l1.len() && m >= leaves.len() {
                assert(l1[m] == Leaf::spec_empty());
            }
        }
    }
}

/// A lookup ends at the node where an insertion along the looked-up
/// position's path would land, when that node is undivided.
proof fn lemma_lookup_land(leaves: Seq<Leaf>, n: int, c: (int, int, int), w: int, p: [i32; 3], fuel: nat)
    requires
        leaves_wf(leaves),
        0 <= n < leaves.len(),
        !leaves[land(leaves, n, insert_path(c, w, p, 1))].is_branch(),
        fuel > levels(w, 1),
    ensures
        spec_lookup(leaves, n, c, w, p, fuel) == land(leaves, n, insert_path(c, w, p, 1)),
    decreases w,
{
    let path = insert_path(c, w, p, 1);
    lemma_path_len(c, w, p, 1);
    lemma_octant_small(c, p);
    assert(all_or_none(leaves[n], leaves.len() as int));
    if leaves[n].is_branch() && path.len() > 0 {
        let o = octant2(c, p);
        let c1 = child_center2(o, c, w);
        assert(path.drop_first() =~= insert_path(c1, w / 2, p, 1));
        let nx = leaves[n].children[o as int] as int;
        lemma_lookup_land(leaves, nx, c1, w / 2, p, (fuel - 1) as nat);
    }
}

/// Every voxel the leaves hold, other than the empty one, sits at the
/// one-voxel node of a position written in `ws`.
pub open spec fn only_written(leaves: Seq<Leaf>, root: [i64; 3], width: u32, ws: Seq<([i32; 3], OctreeVoxel)>) -> bool {
    forall|m: int|
        0 <= m < leaves.len() && #[trigger] leaves[m].voxel != OctreeVoxel::spec_empty() ==> exists|i: int|
            0 <= i < ws.len() && walk(leaves, 0, insert_path(doubled(root), width as int, #[trigger] ws[i].0, 1))
                == Some(m)
}

proof fn lemma_only_written(leaves: Seq<Leaf>, root: [i64; 3], width: u32, ws: Seq<([i32; 3], OctreeVoxel)>)
    requires
        insertable_leaves(leaves, root, width, 1),
        tree_like(leaves),
        unit_cells_undivided(leaves, levels(width as int, 1)),
        leaves.len() + 256 * ws.len() <= MAX_LEAVES,
        forall|i: int| 0 <= i < ws.len() ==> in_cube(doubled(root), width as int, #[trigger] ws[i].0),
        only_written(leaves, root, width, Seq::empty()),
    ensures
        only_written(insert_all(leaves, root, width, ws), root, width, ws),
    decreases ws.len(),
{
    if ws.len() > 0 {
        let pre = ws.drop_last();
        assert(forall|i: int| 0 <= i < pre.len() ==> pre[i] == ws[i]);
        lemma_only_written(leaves, root, width, pre);
        lemma_writes_read_back(leaves, root, width, pre);
        let r0 = insert_all(leaves, root, width, pre);
        let q = ws.last().0;
        let w = ws.last().1;
        let r = insert_all(leaves, root, width, ws);
        let c = doubled(root);
        let qq = insert_path(c, width as int, q, 1);
        lemma_insert_agrees(r0, root, width, q, w, 1);
        assert(r == spec_modify(r0, 0, qq, w));
        lemma_two_to_32();
        lemma_levels_bound(width as int, 1, 32);
        lemma_path_len(c, width as int, q, 1);
        lemma_modify_voxels(r0, 0, qq, w);
        lemma_modify_frame(r0, 0, qq, w);
        lemma_unit_cells_landing(r0, root, width, q);
        let e = land(r0, 0, qq);
        assert forall|m: int| 0 <= m < r.len() && #[trigger] r[m].voxel != OctreeVoxel::spec_empty() implies exists|i: int|
            0 <= i < ws.len() && walk(r, 0, insert_path(c, width as int, #[trigger] ws[i].0, 1)) == Some(m) by {
            if walk(r, 0, qq) == Some(m) {
                assert(ws[ws.len() - 1].0 == q);
            } else {
                assert(m < r0.len() && r[m].voxel == r0[m].voxel);
                let i = choose|i: int|
                    0 <= i < pre.len() && walk(r0, 0, insert_path(c, width as int, #[trigger] pre[i].0, 1)) == Some(m);
                let pi = insert_path(c, width as int, pre[i].0, 1);
                lemma_path_len(c, width as int, pre[i].0, 1);
                assert forall|k: int| 0 <= k < pi.len() implies walk(r0, 0, #[trigger] pi.take(k))->0 != e by {
                    lemma_walk_prefix(r0, pi, k);
                }
                lemma_walk_frame(r0, r, e, pi);
                assert(ws[i] == pre[i]);
            }
        }
    }
}

/// A position that was never written reads as empty: after writing voxels
/// one by one at full resolution into a fresh octree with a power-of-two
/// width, at positions inside its cube, a lookup of any other position of
/// the cube finds the empty voxel.
pub proof fn lemma_unwritten_reads_empty(root: [i64; 3], width: u32, ws: Seq<([i32; 3], OctreeVoxel)>, q: [i32; 3])
    requires
        insertable_leaves(Octree::spec_new_leaves(), root, width, 1),
        9 + 256 * ws.len() <= MAX_LEAVES,
        forall|i: int| 0 <= i < ws.len() ==> in_cube(doubled(root), width as int, #[trigger] ws[i].0),
        in_cube(doubled(root), width as int, q),
        forall|i: int| 0 <= i < ws.len() ==> #[trigger] ws[i].0 != q,
    ensures
        insert_all(Octree::spec_new_leaves(), root, width, ws)[fine_lookup_in(
            insert_all(Octree::spec_new_leaves(), root, width, ws),
            root,
            width,
            q,
        )].voxel == OctreeVoxel::spec_empty(),
{
    let l0 = Octree::spec_new_leaves();
    let c = doubled(root);
    let wd = width as int;
    lemma_pow2_half(wd);
    assert(levels(wd, 1) >= 1);
    lemma_new_tree_like();
    lemma_new_unit_cells(width);
    assert forall|m: int| 0 <= m < l0.len() implies #[trigger] l0[m].voxel == OctreeVoxel::spec_empty() by {
        if m == 0 {
            assert(l0[0] == Leaf::spec_first());
        } else {
            assert(l0[m] == Leaf::spec_empty());
        }
    }
    lemma_only_written(l0, root, width, ws);
    lemma_writes_read_back(l0, root, width, ws);
    let r = insert_all(l0, root, width, ws);
    lemma_lookups_agree(r, root, width, q);
    lemma_unit_cells_landing(r, root, width, q);
    lemma_two_to_32();
    lemma_levels_bound(wd, 1, 32);
    lemma_lookup_land(r, 0, c, wd, q, 100);
    let qq = insert_path(c, wd, q, 1);
    lemma_path_len(c, wd, q, 1);
    let j = lemma_land_walk(r, 0, qq);
    let t = land(r, 0, qq);
    let b = qq.take(j);
    assert(forall|k: int| 0 <= k < b.len() ==> b[k] == qq[k]);
    lemma_walk_in_range(r, 0, b);
    if r[t].voxel != OctreeVoxel::spec_empty() {
        assert(0 <= t < r.len() && r[t].voxel != OctreeVoxel::spec_empty());
        let i = choose|i: int| 0 <= i < ws.len() && walk(r, 0, insert_path(c, wd, #[trigger] ws[i].0, 1)) == Some(t);
        let pi = insert_path(c, wd, ws[i].0, 1);
        lemma_path_len(c, wd, ws[i].0, 1);
        assert(in_cube(c, wd, ws[i].0));
        lemma_walk_injective(r, pi, b);
        assert(b =~= qq);
        lemma_path_determines_point(c, wd, ws[i].0, q);
        assert(false);
    }
}

/// Number of undivided nodes a write along `path` from node `n` subdivides
/// (every node on the way but the one it ends at).
pub open spec fn subdivisions(leaves: Seq<Leaf>, n: int, path: Seq<u32>) -> nat
    decreases path.len(),
{
    if path.len() == 0 {
        0
    } else {
        let l1 = if leaves[n].is_branch() {
            leaves
        } else {
            spec_subdivide(leaves, n)
        };
        (if leaves[n].is_branch() { 0nat } else { 1nat }) + subdivisions(
            l1,
            l1[n].children[path[0] as int] as int,
            path.drop_first(),
        )
    }
}

/// How `modify` grows the leaf array: it appends eight leaves for each node
/// it subdivides; every old leaf keeps its voxel except the one the write
/// ends at, every appended leaf but that one is empty, and a subdivided old
/// leaf keeps its children.
pub proof fn lemma_modify_growth(leaves: Seq<Leaf>, n: int, path: Seq<u32>, v: OctreeVoxel)
    requires
        leaves_wf(leaves),
        0 <= n < leaves.len(),
        forall|k: int| 0 <= k < path.len() ==> #[trigger] path[k] < 8,
        leaves.len() + 8 * path.len() < U32MAX,
    ensures
        spec_modify(leaves, n, path, v).len() == leaves.len() + 8 * subdivisions(leaves, n, path),
        forall|m: int|
            0 <= m < leaves.len() ==> #[trigger] spec_modify(leaves, n, path, v)[m].voxel == leaves[m].voxel
                || walk(spec_modify(leaves, n, path, v), n, path) == Some(m),
        forall|m: int|
            leaves.len() <= m < spec_modify(leaves, n, path, v).len() ==> #[trigger] spec_modify(
                leaves,
                n,
                path,
                v,
            )[m].voxel == OctreeVoxel::spec_empty() || walk(spec_modify(leaves, n, path, v), n, path) == Some(m),
        forall|m: int|
            0 <= m < leaves.len() && leaves[m].is_branch() ==> #[trigger] spec_modify(leaves, n, path, v)[m].children
                == leaves[m].children,
    decreases path.len(),
{
    let r = spec_modify(leaves, n, path, v);
    assert forall|m: int| 0 <= m < leaves.len() && leaves[m].is_branch() implies #[trigger] r[m].children
        == leaves[m].children by {
        lemma_modify_keeps_branches(leaves, n, path, v, m);
    }
    if path.len() > 0 {
        let l1 = if leaves[n].is_branch() {
            leaves
        } else {
            lemma_subdivide_wf(leaves, n);
            spec_subdivide(leaves, n)
        };
        assert(all_or_none(l1[n], l1.len() as int));
        let next = l1[n].children[path[0] as int] as int;
        let rest = path.drop_first();
        assert(forall|k: int| 0 <= k < rest.len() ==> rest[k] == path[k + 1]);
        lemma_modify_growth(l1, next, rest, v);
        lemma_modify_keeps_branches(l1, next, rest, v, n);
        assert(walk(r, n, path) == walk(r, next, rest));
        assert forall|m: int| 0 <= m < leaves.len() implies #[trigger] r[m].voxel == leaves[m].voxel || walk(
            r,
            n,
            path,
        ) == Some(m) by {
            assert(l1[m].voxel == leaves[m].voxel);
        }
        assert forall|m: int| leaves.len() <= m < r.len() implies #[trigger] r[m].voxel
            == OctreeVoxel::spec_empty() || walk(r, n, path) == Some(m) by {
            if m < l1.len() {
                assert(l1[m] == Leaf::spec_empty());
            }
        }
    } else {
        assert(walk(r, n, path) == Some(n));
    }
}

/// `p` moved by `d` voxels along axis `k` (0 for x, 1 for y, 2 for z).
pub open spec fn nudged(p: [i32; 3], k: int, d: int) -> [i32; 3] {
    [
        if k == 0 { (p[0] + d) as i32 } else { p[0] },
        if k == 1 { (p[1] + d) as i32 } else { p[1] },
        if k == 2 { (p[2] + d) as i32 } else { p[2] },
    ]
}

/// The gradient points away from occupied neighbours, alike on every axis:
/// component `k` is the occupancy one voxel below `p` along axis `k` minus
/// the occupancy one voxel above it. So a lone occupied neighbour at
/// `p + e_k` gives -1 in component `k` and 0 in the others.
pub proof fn lemma_gradient_points_away(o: Octree, p: [i32; 3])
    ensures
        forall|k: int|
            0 <= k < 3 ==> spec_gradient(o, p)[k] as int == occupied(o, nudged(p, k, -1)) - occupied(
                o,
                nudged(p, k, 1),
            ),
        forall|k: int|
            0 <= k < 3 ==> (occupied(o, nudged(p, k, 1)) == 1 && occupied(o, nudged(p, k, -1)) == 0
                ==> spec_gradient(o, p)[k] == -1),
{
    assert(nudged(p, 0, -1) == [(p[0] - 1) as i32, p[1], p[2]]);
    assert(nudged(p, 0, 1) == [(p[0] + 1) as i32, p[1], p[2]]);
    assert(nudged(p, 1, -1) == [p[0], (p[1] - 1) as i32, p[2]]);
    assert(nudged(p, 1, 1) == [p[0], (p[1] + 1) as i32, p[2]]);
    assert(nudged(p, 2, -1) == [p[0], p[1], (p[2] - 1) as i32]);
    assert(nudged(p, 2, 1) == [p[0], p[1], (p[2] + 1) as i32]);
}

/// The level of detail by distance, band by band: 1 up to 128 voxels, 2 on
/// 129 to 256, 4 on 257 to 1024, 8 on 1025 to 2048 and 16 beyond; it never
/// gets finer farther away.
pub proof fn lemma_lod_bands(d: u32, e: u32)
    ensures
        d <= 128 ==> spec_lod_for_distance(d) == 1,
        129 <= d <= 256 ==> spec_lod_for_distance(d) == 2,
        257 <= d <= 1024 ==> spec_lod_for_distance(d) == 4,
        1025 <= d <= 2048 ==> spec_lod_for_distance(d) == 8,
        d > 2048 ==> spec_lod_for_distance(d) == 16,
        d <= e ==> spec_lod_for_distance(d) <= spec_lod_for_distance(e),
{
}

} // verus!
