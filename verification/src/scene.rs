//! Flattening a MagicaVoxel scene graph into the shapes it places.
use vstd::prelude::*;

verus! {

/// The first (and only supported) frame of a transform node: its
/// translation, where the file gives one, and the text of its orientation
/// attribute, as the file gives it (decoded only where a placed shape
/// uses it).
#[derive(Clone)]
pub struct SceneFrame {
    pub position: Option<[i32; 3]>,
    pub rotation: Option<String>,
}

/// A node of the scene graph, with the parts the traversal reads.
pub enum SceneNode {
    /// Moves and turns its child.
    Transform { frames: Vec<SceneFrame>, child: u32 },
    /// Groups its children.
    Group { children: Vec<u32> },
    /// Places a model; only the first model id is used.
    Shape { models: Vec<u32> },
}

/// A model placed in the world: which model, where its centre goes, and the
/// transform node whose frame gives its orientation (`None` for no turn).
#[derive(Clone, Copy)]
pub struct ShapeInstance {
    pub model_id: u32,
    pub root: [i64; 3],
    pub oriented_by: Option<u32>,
}

/// The traversal from `node` ends within `depth` levels without meeting a
/// node it cannot handle (a missing node, a transform without exactly one
/// frame, a shape without a model).
pub open spec fn scene_ok(scenes: Seq<SceneNode>, node: int, depth: nat) -> bool
    decreases depth, 0nat,
{
    &&& 0 <= node < scenes.len()
    &&& match scenes[node] {
        SceneNode::Transform { frames, child } => {
            &&& frames@.len() == 1
            &&& depth > 0
            &&& scene_ok(scenes, child as int, (depth - 1) as nat)
        },
        SceneNode::Group { children } => {
            &&& depth > 0
            &&& children_ok(scenes, children@, (depth - 1) as nat)
        },
        SceneNode::Shape { models } => models@.len() >= 1,
    }
}

/// Every node in `children` passes `scene_ok` within `depth` levels.
pub open spec fn children_ok(scenes: Seq<SceneNode>, children: Seq<u32>, depth: nat) -> bool
    decreases depth, children.len() + 1,
{
    if children.len() == 0 {
        true
    } else {
        children_ok(scenes, children.drop_last(), depth) && scene_ok(
            scenes,
            children.last() as int,
            depth,
        )
    }
}

/// The translation of a frame (none when the file gives none).
pub open spec fn frame_offset(f: SceneFrame) -> [i32; 3] {
    match f.position {
        Some(p) => p,
        None => [0i32, 0i32, 0i32],
    }
}

/// `root` moved by `t`.
pub open spec fn moved(root: [i64; 3], t: [i32; 3]) -> [i64; 3] {
    [(root[0] + t[0]) as i64, (root[1] + t[1]) as i64, (root[2] + t[2]) as i64]
}

/// The shapes placed by the subgraph at `node`, in visiting order, when it
/// is entered at `root`, turned as the frame of transform `rot` says.
pub open spec fn flatten(
    scenes: Seq<SceneNode>,
    node: int,
    root: [i64; 3],
    rot: Option<u32>,
    depth: nat,
) -> Seq<ShapeInstance>
    decreases depth, 0nat,
{
    match scenes[node] {
        SceneNode::Transform { frames, child } => {
            if depth > 0 {
                let f = frames@[0];
                flatten(scenes, child as int, moved(root, frame_offset(f)), Some(node as u32), (depth - 1) as nat)
            } else {
                seq![]
            }
        },
        SceneNode::Group { children } => {
            if depth > 0 {
                flatten_list(scenes, children@, root, rot, (depth - 1) as nat)
            } else {
                seq![]
            }
        },
        SceneNode::Shape { models } => seq![ShapeInstance { model_id: models@[0], root, oriented_by: rot }],
    }
}

/// The shapes placed by the nodes `children`, one after the other.
pub open spec fn flatten_list(
    scenes: Seq<SceneNode>,
    children: Seq<u32>,
    root: [i64; 3],
    rot: Option<u32>,
    depth: nat,
) -> Seq<ShapeInstance>
    decreases depth, children.len() + 1,
{
    if children.len() == 0 {
        seq![]
    } else {
        flatten_list(scenes, children.drop_last(), root, rot, depth) + flatten(
            scenes,
            children.last() as int,
            root,
            rot,
            depth,
        )
    }
}

/// The traversal from `node` ends within a depth small enough for the
/// translations to stay representable.
pub open spec fn scene_terminates(scenes: Seq<SceneNode>, node: int) -> bool {
    exists|d: nat| d <= 0x4000_0000 && #[trigger] scene_ok(scenes, node, d)
}

/// A depth within which the traversal from `node` ends.
pub open spec fn scene_depth(scenes: Seq<SceneNode>, node: int) -> nat {
    choose|d: nat| d <= 0x4000_0000 && #[trigger] scene_ok(scenes, node, d)
}

/// The shapes that the subgraph at `node` places, in visiting order.
pub open spec fn scene_instances(
    scenes: Seq<SceneNode>,
    node: int,
    root: [i64; 3],
    rot: Option<u32>,
) -> Seq<ShapeInstance> {
    flatten(scenes, node, root, rot, scene_depth(scenes, node))
}

proof fn lemma_flatten_depth(
    scenes: Seq<SceneNode>,
    node: int,
    root: [i64; 3],
    rot: Option<u32>,
    d1: nat,
    d2: nat,
)
    requires
        scene_ok(scenes, node, d1),
        d1 <= d2,
    ensures
        scene_ok(scenes, node, d2),
        flatten(scenes, node, root, rot, d1) == flatten(scenes, node, root, rot, d2),
    decreases d1, 0nat,
{
    match scenes[node] {
        SceneNode::Transform { frames, child } => {
            let f = frames@[0];
            lemma_flatten_depth(
                scenes,
                child as int,
                moved(root, frame_offset(f)),
                Some(node as u32),
                (d1 - 1) as nat,
                (d2 - 1) as nat,
            );
        },
        SceneNode::Group { children } => {
            lemma_flatten_list_depth(scenes, children@, root, rot, (d1 - 1) as nat, (d2 - 1) as nat);
        },
        SceneNode::Shape { models } => {},
    }
}

proof fn lemma_flatten_list_depth(
    scenes: Seq<SceneNode>,
    children: Seq<u32>,
    root: [i64; 3],
    rot: Option<u32>,
    d1: nat,
    d2: nat,
)
    requires
        children_ok(scenes, children, d1),
        d1 <= d2,
    ensures
        children_ok(scenes, children, d2),
        flatten_list(scenes, children, root, rot, d1) == flatten_list(scenes, children, root, rot, d2),
    decreases d1, children.len() + 1,
{
    if children.len() > 0 {
        lemma_flatten_list_depth(scenes, children.drop_last(), root, rot, d1, d2);
        lemma_flatten_depth(scenes, children.last() as int, root, rot, d1, d2);
    }
}

/// Whether `root` is far enough from the limits of `i64` for `depth` more
/// translations.
pub open spec fn root_room(root: [i64; 3], depth: nat) -> bool {
    &&& -0x4000_0000_0000_0000 + depth * 0x8000_0000 <= root[0] <= 0x4000_0000_0000_0000 - depth * 0x8000_0000
    &&& -0x4000_0000_0000_0000 + depth * 0x8000_0000 <= root[1] <= 0x4000_0000_0000_0000 - depth * 0x8000_0000
    &&& -0x4000_0000_0000_0000 + depth * 0x8000_0000 <= root[2] <= 0x4000_0000_0000_0000 - depth * 0x8000_0000
}

fn visit(
    node: u32,
    scenes: &Vec<SceneNode>,
    root: [i64; 3],
    rot: Option<u32>,
    out: &mut Vec<ShapeInstance>,
    Ghost(depth): Ghost<nat>,
)
    requires
        scene_ok(scenes@, node as int, depth),
        root_room(root, depth),
    ensures
        final(out)@ == old(out)@ + flatten(scenes@, node as int, root, rot, depth),
    decreases depth,
{
    match &scenes[node as usize] {
        SceneNode::Transform { frames, child } => {
            let position = frames[0].position;
            let t = match position {
                Some(p) => p,
                None => [0, 0, 0],
            };
            let translation = [root[0] + t[0] as i64, root[1] + t[1] as i64, root[2] + t[2] as i64];
            assert(translation == moved(root, frame_offset(frames@[0])));
            visit(*child, scenes, translation, Some(node), out, Ghost((depth - 1) as nat));
        },
        SceneNode::Group { children } => {
            let ghost start = out@;
            let mut i: usize = 0;
            while i < children.len()
                invariant
                    i <= children@.len(),
                    depth > 0,
                    children_ok(scenes@, children@, (depth - 1) as nat),
                    root_room(root, depth),
                    out@ == start + flatten_list(scenes@, children@.take(i as int), root, rot, (depth - 1) as nat),
                decreases children@.len() - i,
            {
                proof {
                    lemma_children_ok_prefix(scenes@, children@, (i + 1) as int, (depth - 1) as nat);
                    let pre = children@.take((i + 1) as int);
                    assert(pre.drop_last() =~= children@.take(i as int));
                    assert(pre.last() == children@[i as int]);
                }
                visit(children[i], scenes, root, rot, out, Ghost((depth - 1) as nat));
                i = i + 1;
            }
            assert(children@.take(children@.len() as int) =~= children@);
        },
        SceneNode::Shape { models } => {
            out.push(ShapeInstance { model_id: models[0], root: root, oriented_by: rot });
        },
    }
}

proof fn lemma_children_ok_prefix(scenes: Seq<SceneNode>, children: Seq<u32>, k: int, depth: nat)
    requires
        children_ok(scenes, children, depth),
        0 <= k <= children.len(),
    ensures
        children_ok(scenes, children.take(k), depth),
        k > 0 ==> scene_ok(scenes, children[k - 1] as int, depth),
    decreases children.len(),
{
    if k < children.len() {
        lemma_children_ok_prefix(scenes, children.drop_last(), k, depth);
        assert(children.drop_last().take(k) =~= children.take(k));
        if k > 0 {
            assert(children.drop_last()[k - 1] == children[k - 1]);
        }
    } else {
        assert(children.take(k) =~= children);
    }
}

/// Append to `out`, in visiting order, every shape that the scene graph
/// places below `node` when entered at `root` turned as transform `rot` says:
/// a transform moves its child by its frame's translation and turns it as
/// its own frame says, a group visits its children in order, and a shape
/// places its first model.
pub fn process_scene_node(
    node: u32,
    scenes: &Vec<SceneNode>,
    root: [i64; 3],
    rot: Option<u32>,
    out: &mut Vec<ShapeInstance>,
)
    requires
        scene_terminates(scenes@, node as int),
        -0x2000_0000_0000_0000 <= root[0] <= 0x2000_0000_0000_0000,
        -0x2000_0000_0000_0000 <= root[1] <= 0x2000_0000_0000_0000,
        -0x2000_0000_0000_0000 <= root[2] <= 0x2000_0000_0000_0000,
    ensures
        final(out)@ == old(out)@ + scene_instances(scenes@, node as int, root, rot),
{
    let ghost d = scene_depth(scenes@, node as int);
    proof {
        assert(root_room(root, d));
    }
    visit(node, scenes, root, rot, out, Ghost(d));
}

/// Any depth within which the traversal ends gives the same shapes.
pub proof fn lemma_scene_depth_irrelevant(
    scenes: Seq<SceneNode>,
    node: int,
    root: [i64; 3],
    rot: Option<u32>,
    d: nat,
)
    requires
        scene_ok(scenes, node, d),
        scene_terminates(scenes, node),
    ensures
        flatten(scenes, node, root, rot, d) == scene_instances(scenes, node, root, rot),
{
    let e = scene_depth(scenes, node);
    if d <= e {
        lemma_flatten_depth(scenes, node, root, rot, d, e);
    } else {
        lemma_flatten_depth(scenes, node, root, rot, e, d);
    }
}

/// The shapes the nodes `children` place, one node after the other, each
/// entered at `root`, turned as the frame of transform `rot` says.
pub open spec fn list_instances(
    scenes: Seq<SceneNode>,
    children: Seq<u32>,
    root: [i64; 3],
    rot: Option<u32>,
) -> Seq<ShapeInstance>
    decreases children.len(),
{
    if children.len() == 0 {
        seq![]
    } else {
        list_instances(scenes, children.drop_last(), root, rot) + scene_instances(
            scenes,
            children.last() as int,
            root,
            rot,
        )
    }
}

proof fn lemma_list_instances(
    scenes: Seq<SceneNode>,
    children: Seq<u32>,
    root: [i64; 3],
    rot: Option<u32>,
    d: nat,
)
    requires
        children_ok(scenes, children, d),
        d <= 0x4000_0000,
    ensures
        flatten_list(scenes, children, root, rot, d) == list_instances(scenes, children, root, rot),
    decreases children.len(),
{
    if children.len() > 0 {
        lemma_list_instances(scenes, children.drop_last(), root, rot, d);
        let c = children.last() as int;
        assert(scene_ok(scenes, c, d));
        assert(scene_terminates(scenes, c));
        lemma_scene_depth_irrelevant(scenes, c, root, rot, d);
    }
}

/// A group places its children's shapes in order: those of its first child,
/// then those of the next, each child entered where the group was and with
/// the same orientation; a group without children places nothing.
pub proof fn lemma_group_places_children_in_order(
    scenes: Seq<SceneNode>,
    node: int,
    root: [i64; 3],
    rot: Option<u32>,
)
    requires
        scene_terminates(scenes, node),
    ensures
        scenes[node] matches SceneNode::Group { children } ==> scene_instances(scenes, node, root, rot)
            == list_instances(scenes, children@, root, rot),
{
    let d = scene_depth(scenes, node);
    assert(scene_ok(scenes, node, d));
    if let SceneNode::Group { children } = scenes[node] {
        lemma_list_instances(scenes, children@, root, rot, (d - 1) as nat);
    }
}

/// A transform moves its child by its frame's translation, added to where
/// the transform was entered, and turns it as its own frame says, in place
/// of the orientation it was entered with.
pub proof fn lemma_transform_moves_child(
    scenes: Seq<SceneNode>,
    node: int,
    root: [i64; 3],
    rot: Option<u32>,
)
    requires
        scene_terminates(scenes, node),
    ensures
        scenes[node] matches SceneNode::Transform { frames, child } ==> scene_instances(scenes, node, root, rot)
            == scene_instances(
            scenes,
            child as int,
            moved(root, frame_offset(frames@[0])),
            Some(node as u32),
        ),
{
    let d = scene_depth(scenes, node);
    if let SceneNode::Transform { frames, child } = scenes[node] {
        let f = frames@[0];
        assert(scene_ok(scenes, node, d));
        assert(scene_ok(scenes, child as int, (d - 1) as nat));
        assert(scene_terminates(scenes, child as int));
        lemma_scene_depth_irrelevant(scenes, child as int, moved(root, frame_offset(f)), Some(node as u32), (d - 1) as nat);
    }
}

/// Whether the traversal from `node` ends within `depth` levels without
/// meeting a node it cannot handle (walks the graph, revisiting shared
/// nodes).
pub fn scene_checks(scenes: &Vec<SceneNode>, node: u32, depth: u32) -> (b: bool)
    ensures
        b == scene_ok(scenes@, node as int, depth as nat),
    decreases depth,
{
    if node as usize >= scenes.len() {
        return false;
    }
    match &scenes[node as usize] {
        SceneNode::Transform { frames, child } => {
            frames.len() == 1 && depth > 0 && scene_checks(scenes, *child, depth - 1)
        },
        SceneNode::Group { children } => {
            if depth == 0 {
                return false;
            }
            let mut i: usize = 0;
            while i < children.len()
                invariant
                    i <= children@.len(),
                    depth > 0,
                    (node as int) < scenes@.len(),
                    scenes@[node as int] == (SceneNode::Group { children: *children }),
                    children_ok(scenes@, children@.take(i as int), (depth - 1) as nat),
                decreases children@.len() - i,
            {
                let ghost pre = children@.take((i + 1) as int);
                proof {
                    assert(pre.drop_last() =~= children@.take(i as int));
                    assert(pre.last() == children@[i as int]);
                }
                if !scene_checks(scenes, children[i], depth - 1) {
                    proof {
                        lemma_children_ok_prefix_rev(scenes@, children@, (i + 1) as int, (depth - 1) as nat);
                        assert(!children_ok(scenes@, children@, (depth - 1) as nat));
                        assert(scenes@[node as int] == SceneNode::Group { children: *children });
                        assert(!scene_ok(scenes@, node as int, depth as nat));
                    }
                    return false;
                }
                i = i + 1;
            }
            assert(children@.take(children@.len() as int) =~= children@);
            true
        },
        SceneNode::Shape { models } => models.len() >= 1,
    }
}

proof fn lemma_children_ok_prefix_rev(scenes: Seq<SceneNode>, children: Seq<u32>, k: int, depth: nat)
    requires
        0 < k <= children.len(),
        !scene_ok(scenes, children[k - 1] as int, depth),
    ensures
        !children_ok(scenes, children, depth),
{
    if children_ok(scenes, children, depth) {
        lemma_children_ok_prefix(scenes, children, k, depth);
    }
}

} // verus!
