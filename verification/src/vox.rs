//! Reading a MagicaVoxel `.vox` file into the plain values the world is
//! built from: the scene graph, the models and the palette.
use dot_vox::{load_bytes, DotVoxData, SceneNode as VoxNode};
use vstd::prelude::*;

use crate::scene::{SceneFrame, SceneNode};

verus! {

/// Declares `dot_vox::DotVoxData`, the parsed contents of a `.vox` file, so
/// that a parsed file can be held; Verus sees nothing inside it.
#[verifier::external_type_specification]
#[verifier::external_body]
pub struct ExDotVoxData(DotVoxData);

/// A model of a `.vox` file: its size and its voxels, each as
/// `[x, y, z, palette index]`.
pub struct VoxModel {
    pub size: [u32; 3],
    pub voxels: Vec<[u8; 4]>,
}

/// The parts of a `.vox` file that the world is built from.
pub struct VoxFile {
    pub scenes: Vec<SceneNode>,
    pub models: Vec<VoxModel>,
    pub palette: Vec<[u8; 4]>,
}

/// A transform frame as plain values: its translation and the text of its
/// orientation attribute.
pub open spec fn frame_view(f: SceneFrame) -> (Option<[i32; 3]>, Option<Seq<char>>) {
    (
        f.position,
        match f.rotation {
            Some(r) => Some(r@),
            None => None,
        },
    )
}

/// A scene node as plain values: its kind (0 transform, 1 group, 2 shape),
/// its frames, its child, and its children or model ids.
pub open spec fn node_view(n: SceneNode) -> (u8, Seq<(Option<[i32; 3]>, Option<Seq<char>>)>, u32, Seq<u32>) {
    match n {
        SceneNode::Transform { frames, child } => (0u8, frames@.map_values(|f: SceneFrame| frame_view(f)), child, seq![]),
        SceneNode::Group { children } => (1u8, seq![], 0u32, children@),
        SceneNode::Shape { models } => (2u8, seq![], 0u32, models@),
    }
}

/// A model as plain values.
pub open spec fn model_view(m: VoxModel) -> ([u32; 3], Seq<[u8; 4]>) {
    (m.size, m.voxels@)
}

/// A parsed file as plain values: palette, models, scene nodes.
pub open spec fn vox_view(f: VoxFile) -> (
    Seq<[u8; 4]>,
    Seq<([u32; 3], Seq<[u8; 4]>)>,
    Seq<(u8, Seq<(Option<[i32; 3]>, Option<Seq<char>>)>, u32, Seq<u32>)>,
) {
    (
        f.palette@,
        f.models@.map_values(|m: VoxModel| model_view(m)),
        f.scenes@.map_values(|n: SceneNode| node_view(n)),
    )
}

/// What `dot_vox::load_bytes` makes of `bytes`, as plain values: `None`
/// where it refuses them, else the palette (each colour as
/// `[r, g, b, a]`), the models and the scene nodes, each transform frame
/// given by the translation `Frame::position` reads and the text of its
/// `_r` (orientation) attribute.
pub uninterp spec fn spec_load_bytes(bytes: Seq<u8>) -> Option<
    (
        Seq<[u8; 4]>,
        Seq<([u32; 3], Seq<[u8; 4]>)>,
        Seq<(u8, Seq<(Option<[i32; 3]>, Option<Seq<char>>)>, u32, Seq<u32>)>,
    ),
>;

/// A file that `load_bytes` accepted, with the bytes it was read from.
pub struct ParsedVox {
    data: DotVoxData,
    source: Ghost<Seq<u8>>,
}

impl ParsedVox {
    /// The bytes this file was parsed from.
    pub closed spec fn source(&self) -> Seq<u8> {
        self.source@
    }
}

/// Calls `dot_vox::load_bytes`. Claimed: the result is `Some` exactly when
/// `load_bytes` accepts the bytes, and it remembers them. A `ParsedVox` is
/// made nowhere else, so its contents are what `load_bytes` made of its
/// source.
#[verifier::external_body]
fn load_vox(bytes: &[u8]) -> (r: Option<ParsedVox>)
    ensures
        r.is_some() == spec_load_bytes(bytes@).is_some(),
        r matches Some(p) ==> p.source() == bytes@,
{
    let data = load_bytes(bytes).ok()?;
    Some(ParsedVox { data, source: Ghost(bytes@) })
}

/// Converts the palette of a parsed file (`Color` to `[r, g, b, a]`).
/// Claimed: it is the palette `load_bytes` made of the source.
#[verifier::external_body]
fn vox_palette(p: &ParsedVox) -> (r: Vec<[u8; 4]>)
    ensures
        spec_load_bytes(p.source()) matches Some(t) ==> r@ == t.0,
{
    p.data.palette.iter().map(Into::into).collect()
}

/// Converts the models of a parsed file. Claimed: they are the models
/// `load_bytes` made of the source, with each size and voxel as plain
/// numbers.
#[verifier::external_body]
fn vox_models(p: &ParsedVox) -> (r: Vec<VoxModel>)
    ensures
        spec_load_bytes(p.source()) matches Some(t) ==> r@.map_values(|m: VoxModel| model_view(m)) == t.1,
{
    let voxels = |m: &dot_vox::Model| m.voxels.iter().map(|v| [v.x, v.y, v.z, v.i]).collect();
    p.data.models.iter().map(|m| VoxModel { size: [m.size.x, m.size.y, m.size.z], voxels: voxels(m) }).collect()
}

/// Converts the scene nodes of a parsed file, reading each transform
/// frame's translation with `Frame::position` and copying the text of its
/// `_r` attribute undecoded. Claimed: they are the nodes `load_bytes` made
/// of the source, and their other attributes are dropped.
#[verifier::external_body]
fn vox_scenes(p: &ParsedVox) -> (r: Vec<SceneNode>)
    ensures
        spec_load_bytes(p.source()) matches Some(t) ==> r@.map_values(|n: SceneNode| node_view(n)) == t.2,
{
    let frame = |f: &dot_vox::Frame| SceneFrame { position: f.position().map(|q| [q.x, q.y, q.z]), rotation: f.attributes.get("_r").cloned() };
    p.data.scenes.iter().map(|n| match n {
        VoxNode::Transform { frames, child, .. } => SceneNode::Transform { frames: frames.iter().map(frame).collect(), child: *child },
        VoxNode::Group { children, .. } => SceneNode::Group { children: children.clone() },
        VoxNode::Shape { models, .. } => SceneNode::Shape { models: models.iter().map(|m| m.model_id).collect() },
    }).collect()
}

/// Read the bytes of a `.vox` file: `None` where they are not a valid file,
/// else its scene graph, models and palette.
pub fn parse_vox(bytes: &[u8]) -> (r: Option<VoxFile>)
    ensures
        match spec_load_bytes(bytes@) {
            None => r is None,
            Some(t) => r matches Some(f) && vox_view(f) == t,
        },
{
    match load_vox(bytes) {
        None => None,
        Some(p) => {
            let palette = vox_palette(&p);
            let models = vox_models(&p);
            let scenes = vox_scenes(&p);
            let f = VoxFile { scenes, models, palette };
            proof {
                let t = spec_load_bytes(bytes@)->0;
                assert(vox_view(f).0 == t.0);
                assert(vox_view(f).1 == t.1);
                assert(vox_view(f).2 == t.2);
            }
            Some(f)
        },
    }
}

} // verus!
